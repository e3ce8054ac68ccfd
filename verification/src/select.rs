//! One simulation: selection, expansion, evaluation, backpropagation.
//!
//! Selection walks from the root, at each expanded node maximizing the
//! combined exploitation and exploration score; it stops at the first
//! unmaterialized edge or at a terminal node.  Expansion materializes the
//! child behind that edge, asks the oracle for its moves, and values it by
//! the evaluator, a rollout or the cached terminal outcome.
//! Backpropagation walks the recorded index path back to the root,
//! flipping the value at every step because the turns alternate.

use vstd::prelude::*;
use vstd::pervasive::unreached;
use vstd::arithmetic::div_mod::{lemma_div_is_ordered, lemma_div_by_multiple, lemma_div_nonincreasing};
use vstd::arithmetic::mul::lemma_mul_upper_bound;
use crate::arena::{
    Edge, Node, arena_wf, node_wf, node_stats_wf, node_counts_ok, points_to, unique_parents,
    edge_visits, edge_mvs, child_visits_sum, edge_prior_sum, edge_wf, lemma_sum_congruent,
    lemma_sum_bump, lemma_sum_no_children, lemma_sum_update_edge, lemma_sum_ge_edge,
    lemma_edge_prior_sum_update,
};
use crate::oracle::move_ids;
use crate::expand::{
    filter_excluded, blend_noise, renormalize, edges_from_moves, allowed_moves,
    lemma_allowed_moves_elems, lemma_allowed_moves_empty, lemma_allowed_moves_distinct,
};
use crate::fixed::{UNIT, HALF, VISIT_CAP, EXPLORATION_MAX};
use crate::oracle::GamePosition;
use crate::rollout::rollout;
use crate::tree::MonteCarloTree;

verus! {

/// A selection path: arena indices from the root downward, each linked to
/// the next by an edge and strictly increasing (children are younger than
/// their parents).
/// Some edge of node `a` points at node `b`.
pub open spec fn linked<P>(nodes: Seq<Node<P>>, a: usize, b: usize) -> bool {
    exists|j: int| #[trigger] points_to(nodes, a as int, j, b)
}

pub open spec fn path_ok<P>(nodes: Seq<Node<P>>, path: Seq<usize>) -> bool {
    &&& path.len() >= 1
    &&& path[0] == 0usize
    &&& (forall|k: int| 0 <= k < path.len() ==> (#[trigger] path[k]) < nodes.len())
    &&& (forall|k: int| 0 < k < path.len() ==> path[k - 1] < #[trigger] path[k])
    &&& (forall|k: int| 0 < k < path.len() ==> #[trigger] linked(nodes, path[k - 1], path[k]))
}

/// The exploitation part of an edge's score: the parent's view of the
/// child's mean value (the complement of the child's own mean), or one
/// half before the first visit.
pub open spec fn spec_exploit<P>(nodes: Seq<Node<P>>, e: Edge) -> int {
    match e.child {
        Some(c) => {
            if c < nodes.len() && nodes[c as int].visits >= 1 {
                UNIT - nodes[c as int].value_sum as int / nodes[c as int].visits as int
            } else {
                HALF as int
            }
        },
        None => HALF as int,
    }
}

/// The exploration part: the exploration constant times the prior times
/// `sqrt(parent visits) / (1 + child visits)`, in fixed point (`sq` is
/// the square root of the parent's visits scaled by `UNIT`).
pub open spec fn spec_explore<P>(nodes: Seq<Node<P>>, e: Edge, sq: int, cp: int) -> int {
    (cp * e.prior / (UNIT as int)) * sq / (65536 * (1 + edge_visits(nodes, e)))
}

/// The selection score of one edge.
pub open spec fn spec_score<P>(nodes: Seq<Node<P>>, e: Edge, sq: int, cp: int) -> int {
    spec_exploit(nodes, e) + spec_explore(nodes, e, sq, cp)
}

/// The combined exploitation and exploration score of one edge.
fn score_edge<P: GamePosition>(nodes: &Vec<Node<P>>, e: &Edge, sq: u64, cp: u64) -> (s: u64)
    requires
        cp <= EXPLORATION_MAX,
        sq <= 0x10_0000_0000,
        e.prior <= UNIT,
        e.child matches Some(c) ==> (c as int) < nodes@.len() && nodes@[c as int].visits >= 1
            && nodes@[c as int].value_sum <= nodes@[c as int].visits * UNIT
            && nodes@[c as int].visits <= VISIT_CAP,
    ensures
        s == spec_score(nodes@, *e, sq as int, cp as int),
{
    let exploit: u64 = match e.child {
        None => HALF,
        Some(c) => {
            let visits: u64 = nodes[c].visits;
            let sum: u64 = nodes[c].value_sum;
            let mean: u64 = sum / visits;
            proof {
                lemma_div_is_ordered(sum as int, (visits * UNIT) as int, visits as int);
                lemma_div_by_multiple(UNIT as int, visits as int);
                assert((UNIT as int) * (visits as int) == (visits as int) * (UNIT as int))
                    by (nonlinear_arith);
            }
            UNIT - mean
        },
    };
    let child_visits: u64 = match e.child {
        None => 0,
        Some(c) => nodes[c].visits,
    };
    proof {
        lemma_mul_upper_bound(cp as int, EXPLORATION_MAX as int, e.prior as int, UNIT as int);
        lemma_div_is_ordered((cp * e.prior) as int, (EXPLORATION_MAX as int) * (UNIT as int),
            UNIT as int);
        assert((EXPLORATION_MAX as int) * (UNIT as int) / (UNIT as int) == EXPLORATION_MAX as int);
    }
    let a: u64 = cp * e.prior / UNIT;
    proof {
        lemma_mul_upper_bound(a as int, EXPLORATION_MAX as int, sq as int, 0x10_0000_0000);
    }
    let b: u64 = a * sq;
    let denom: u64 = 65536 * (1 + child_visits);
    proof {
        lemma_div_nonincreasing(b as int, denom as int);
    }
    let explore: u64 = b / denom;
    exploit + explore
}

/// A strictly increasing path is increasing across any two positions.
proof fn lemma_path_increasing<P>(nodes: Seq<Node<P>>, path: Seq<usize>, t1: int, t2: int)
    requires
        path_ok(nodes, path),
        0 <= t1 < t2 < path.len(),
    ensures
        path[t1] < path[t2],
    decreases t2 - t1,
{
    if t1 + 1 < t2 {
        lemma_path_increasing(nodes, path, t1 + 1, t2);
    }
}

/// Extending a path through an existing edge keeps it a path.
proof fn lemma_path_push<P>(nodes: Seq<Node<P>>, path: Seq<usize>, cur: usize, j: int, c: usize)
    requires
        path_ok(nodes, path),
        path.last() == cur,
        points_to(nodes, cur as int, j, c),
        cur < c,
        (c as int) < nodes.len(),
    ensures
        path_ok(nodes, path.push(c)),
{
    let p2 = path.push(c);
    assert(p2[0] == path[0]);
    assert forall|k: int| 0 <= k < p2.len() implies (#[trigger] p2[k]) < nodes.len() by {
        if k < path.len() {
            assert(p2[k] == path[k]);
        } else {
            assert(p2[k] == c);
        }
    }
    assert forall|k: int| 0 < k < p2.len() implies p2[k - 1] < (#[trigger] p2[k]) by {
        if k < path.len() {
            assert(p2[k] == path[k]);
            assert(p2[k - 1] == path[k - 1]);
        } else {
            assert(p2[k] == c);
            assert(p2[k - 1] == path.last());
        }
    }
    assert forall|k: int| 0 < k < p2.len() implies #[trigger] linked(nodes, p2[k - 1], p2[k])
        by {
        if k < p2.len() - 1 {
            assert(p2[k] == path[k]);
            assert(p2[k - 1] == path[k - 1]);
            assert(linked(nodes, path[k - 1], path[k]));
        } else {
            assert(p2[k] == c);
            assert(p2[k - 1] == cur);
            assert(points_to(nodes, cur as int, j, c));
            assert(linked(nodes, cur, c));
        }
    }
    assert(path_ok(nodes, p2));
}

/// Along a path, visit counts never increase: a parent has been visited
/// strictly more often than any of its children.
proof fn lemma_path_visits_le_root<P>(nodes: Seq<Node<P>>, path: Seq<usize>, k: int)
    requires
        path_ok(nodes, path),
        forall|i: int| 0 <= i < nodes.len() ==> #[trigger] node_wf(nodes, i),
        0 <= k < path.len(),
    ensures
        nodes[path[k] as int].visits <= nodes[path[0] as int].visits,
    decreases k,
{
    if k > 0 {
        lemma_path_visits_le_root(nodes, path, k - 1);
        let p = path[k - 1] as int;
        assert(linked(nodes, path[k - 1], path[k]));
        let j = choose|j: int| #[trigger] points_to(nodes, p, j, path[k]);
        assert(points_to(nodes, p, j, path[k]));
        assert(node_wf(nodes, p));
        let es = nodes[p].edges->Some_0@;
        lemma_sum_ge_edge(nodes, es, j);
        assert(edge_visits(nodes, es[j]) == nodes[path[k] as int].visits);
    }
}

/// One backpropagation step: after the visit count of `path[k]` has been
/// bumped, visit accounting is restored at `path[k]` and everywhere off
/// the path, and the one-short "pending" equation moves to `path[k - 1]`.
#[verifier::rlimit(100)]
proof fn lemma_backprop_step<P>(
    orig: Seq<Node<P>>,
    pre: Seq<Node<P>>,
    cur: Seq<Node<P>>,
    path: Seq<usize>,
    k: int,
    idx: usize,
)
    requires
        path_ok(orig, path),
        unique_parents(orig),
        0 <= k < path.len(),
        idx == path[k],
        pre.len() == orig.len(),
        cur.len() == pre.len(),
        forall|i: int| 0 <= i < orig.len() ==> node_stats_wf(orig, i),
        forall|i: int| 0 <= i < orig.len() ==> (#[trigger] pre[i]).edges == orig[i].edges,
        forall|i: int| 0 <= i < orig.len() && i != idx ==> #[trigger] cur[i] == pre[i],
        cur[idx as int].edges == pre[idx as int].edges,
        cur[idx as int].visits == pre[idx as int].visits + 1,
        pre[idx as int] == orig[idx as int],
        forall|t: int| 0 <= t <= k ==> pre[#[trigger] path[t] as int] == orig[path[t] as int],
        forall|i: int|
            0 <= i < orig.len() && !path.contains(i as usize) ==> node_counts_ok(pre, i),
        forall|t: int|
            0 <= t < path.len() && t != k ==> node_counts_ok(pre, #[trigger] path[t] as int),
        pre[idx as int].edges matches Some(es) ==> pre[idx as int].visits == child_visits_sum(
            pre,
            es@,
        ),
        forall|i: int| 0 <= i < orig.len() ==> node_stats_wf(pre, i),
        node_stats_wf(cur, idx as int),
    ensures
        forall|i: int| 0 <= i < orig.len() ==> node_stats_wf(cur, i),
        forall|i: int|
            0 <= i < orig.len() && !path.contains(i as usize) ==> node_counts_ok(cur, i),
        forall|t: int|
            0 <= t < path.len() && t != k - 1 ==> node_counts_ok(cur, #[trigger] path[t] as int),
        k >= 1 ==> ({
            let i = path[k - 1] as int;
            cur[i].edges matches Some(es) ==> cur[i].visits == child_visits_sum(cur, es@)
        }),
{
    assert forall|i: int| 0 <= i < orig.len() implies node_stats_wf(cur, i) by {
        if i != idx {
            assert(cur[i] == pre[i]);
            assert(node_stats_wf(pre, i));
            if cur[i].edges is Some {
                assert forall|t: int|
                    0 <= t < cur[i].edges->Some_0@.len() implies edge_wf(cur, i,
                    #[trigger] cur[i].edges->Some_0@[t]) by {
                    assert(edge_wf(pre, i, pre[i].edges->Some_0@[t]));
                }
            }
        }
    }
    // Visit accounting at `idx` itself: its children all sit at higher
    // indices, so their counts did not move.
    if cur[idx as int].edges is Some {
        let esi = cur[idx as int].edges->Some_0@;
        assert(esi == pre[idx as int].edges->Some_0@);
        assert forall|t: int|
            0 <= t < esi.len() implies edge_visits(cur, #[trigger] esi[t]) == edge_visits(pre,
            esi[t]) by {
            assert(edge_wf(pre, idx as int, esi[t]));
            if esi[t].child is Some {
                assert(esi[t].child->0 != idx);
            }
        }
        lemma_sum_congruent(pre, cur, esi);
        assert(node_counts_ok(cur, idx as int));
    }
    // The only edge into `idx` comes from `path[k - 1]`; nobody points at
    // the root.
    assert forall|p: int, t: int| #[trigger] points_to(orig, p, t, idx) implies k >= 1 && p
        == path[k - 1] as int && orig[p].edges->Some_0@[t].child == Some(idx) by {
        if k >= 1 {
            assert(linked(orig, path[k - 1], path[k]));
            let j0 = choose|j0: int| #[trigger] points_to(orig, path[k - 1] as int, j0, path[k]);
            assert(points_to(orig, path[k - 1] as int, j0, idx));
        } else {
            assert(idx == 0usize);
            assert(node_stats_wf(orig, p));
            assert(edge_wf(orig, p, orig[p].edges->Some_0@[t]));
            assert(false);
        }
    }
    assert forall|i: int| 0 <= i < orig.len() && !path.contains(i as usize)
        implies node_counts_ok(cur, i) by {
        assert(path[k] == idx);
        assert(path.contains(idx));
        assert(i != idx);
        assert(node_counts_ok(pre, i));
        assert(cur[i] == pre[i]);
        if cur[i].edges is Some {
            let esi = cur[i].edges->Some_0@;
            assert(esi == orig[i].edges->Some_0@);
            assert forall|t: int|
                0 <= t < esi.len() implies edge_visits(cur, #[trigger] esi[t]) == edge_visits(
                pre, esi[t]) by {
                if esi[t].child is Some && esi[t].child->0 == idx {
                    assert(points_to(orig, i, t, idx));
                    assert(path.contains(i as usize));
                    assert(false);
                }
            }
            lemma_sum_congruent(pre, cur, esi);
        }
    }
    assert forall|t: int| 0 <= t < path.len() && t != k - 1 implies node_counts_ok(cur,
        #[trigger] path[t] as int) by {
        let i = path[t] as int;
        if t == k {
            if cur[i].edges is Some {
            }
        } else {
            assert(i != idx) by {
                if t < k {
                    lemma_path_increasing(orig, path, t, k);
                } else {
                    lemma_path_increasing(orig, path, k, t);
                }
            }
            assert(node_counts_ok(pre, i));
            assert(cur[i] == pre[i]);
            if cur[i].edges is Some {
                let esi = cur[i].edges->Some_0@;
                assert(esi == orig[i].edges->Some_0@);
                assert forall|t2: int|
                    0 <= t2 < esi.len() implies edge_visits(cur, #[trigger] esi[t2])
                    == edge_visits(pre, esi[t2]) by {
                    if esi[t2].child is Some && esi[t2].child->0 == idx {
                        assert(points_to(orig, i, t2, idx));
                        assert(k >= 1 && i == path[k - 1] as int);
                        assert(t == k - 1) by {
                            if t < k - 1 {
                                lemma_path_increasing(orig, path, t, k - 1);
                            } else if t > k - 1 {
                                lemma_path_increasing(orig, path, k - 1, t);
                            }
                        }
                        assert(false);
                    }
                }
                lemma_sum_congruent(pre, cur, esi);
            }
        }
    }
    // The pending equation moves one step up the path.
    if k >= 1 {
        let pi = path[k - 1] as int;
        assert(linked(orig, path[k - 1], path[k]));
        let j0 = choose|j0: int| #[trigger] points_to(orig, pi, j0, path[k]);
        assert(points_to(orig, pi, j0, idx));
        assert(pre[pi] == orig[pi]);
        assert(cur[pi] == pre[pi]) by {
            lemma_path_increasing(orig, path, k - 1, k);
        }
        let espi = cur[pi].edges->Some_0@;
        assert(espi == orig[pi].edges->Some_0@);
        assert forall|t: int|
            0 <= t < espi.len() && t != j0 implies edge_visits(cur, #[trigger] espi[t])
            == edge_visits(pre, espi[t]) by {
            if espi[t].child is Some && espi[t].child->0 == idx {
                assert(points_to(orig, pi, t, idx));
                assert(t == j0);
                assert(false);
            }
        }
        assert(espi[j0].child == Some(idx));
        assert(edge_visits(cur, espi[j0]) == edge_visits(pre, espi[j0]) + 1);
        lemma_sum_bump(pre, cur, espi, j0, 1);
        assert(node_counts_ok(pre, pi));
        assert(cur[pi].visits == child_visits_sum(cur, espi));
    }
}

/// After the whole path has been processed, every node is in good
/// standing and the arena is still a tree.
proof fn lemma_backprop_finish<P>(orig: Seq<Node<P>>, nodes: Seq<Node<P>>, path: Seq<usize>)
    requires
        nodes.len() <= usize::MAX,
        nodes.len() == orig.len(),
        unique_parents(orig),
        forall|i: int| 0 <= i < nodes.len() ==> (#[trigger] nodes[i]).edges == orig[i].edges,
        forall|i: int| 0 <= i < nodes.len() ==> node_stats_wf(nodes, i),
        forall|i: int|
            0 <= i < nodes.len() && !path.contains(i as usize) ==> node_counts_ok(nodes, i),
        forall|t: int|
            0 <= t < path.len() ==> node_counts_ok(nodes, #[trigger] path[t] as int),
    ensures
        forall|i: int| 0 <= i < nodes.len() ==> #[trigger] node_wf(nodes, i),
        unique_parents(nodes),
{
    assert forall|i: int| 0 <= i < nodes.len() implies #[trigger] node_wf(nodes, i) by {
        assert(node_stats_wf(nodes, i));
        if path.contains(i as usize) {
            let t = choose|t: int| 0 <= t < path.len() && path[t] == i as usize;
            assert(node_counts_ok(nodes, path[t] as int));
            assert(path[t] as int == i);
        } else {
            assert(node_counts_ok(nodes, i));
        }
    }
    assert forall|p1: int, j1: int, p2: int, j2: int, c: usize|
        #[trigger] points_to(nodes, p1, j1, c) && #[trigger] points_to(nodes, p2, j2, c)
        implies p1 == p2 && j1 == j2 by {
        assert(nodes[p1].edges == orig[p1].edges);
        assert(nodes[p2].edges == orig[p2].edges);
        assert(points_to(orig, p1, j1, c));
        assert(points_to(orig, p2, j2, c));
    }
}

/// A tree whose nodes all kept their positions, edges and terminal
/// flags - under unchanged settings - still reports legal, distinct
/// moves and matching terminal flags.
proof fn lemma_oracle_clauses_preserved<P: GamePosition>(
    oldt: MonteCarloTree<P>,
    newt: MonteCarloTree<P>,
)
    requires
        oldt.edges_legal(),
        oldt.edges_distinct(),
        oldt.terminals_match(),
        oldt.root().visits >= 1,
        newt.settings == oldt.settings,
        newt.arena.nodes@.len() == oldt.arena.nodes@.len(),
        forall|i: int|
            0 <= i < newt.arena.nodes@.len() ==> {
                &&& (#[trigger] newt.arena.nodes@[i]).edges == oldt.arena.nodes@[i].edges
                &&& newt.arena.nodes@[i].pos == oldt.arena.nodes@[i].pos
                &&& newt.arena.nodes@[i].terminal == oldt.arena.nodes@[i].terminal
            },
    ensures
        newt.edges_legal(),
        newt.edges_distinct(),
        newt.root().visits >= 1 ==> newt.terminals_match(),
{
    assert forall|i: int| 0 <= i < newt.arena.nodes@.len()
        implies #[trigger] newt.node_edges_legal(i) by {
        assert(oldt.node_edges_legal(i));
    }
    assert forall|i: int| 0 <= i < newt.arena.nodes@.len()
        implies #[trigger] newt.node_edges_distinct(i) by {
        assert(oldt.node_edges_distinct(i));
    }
}

/// A tree whose arena was only grown and re-accounted - root position,
/// root edge moves and settings untouched - is again in good standing.
proof fn lemma_select_rewf<P: GamePosition>(oldt: MonteCarloTree<P>, newt: MonteCarloTree<P>)
    requires
        oldt.wf(),
        newt.settings == oldt.settings,
        newt.arena.capacity == oldt.arena.capacity,
        crate::rng::rng_wf(newt.rng),
        oldt.arena.nodes@.len() <= newt.arena.nodes@.len() <= oldt.arena.nodes@.len() + 1,
        newt.arena.nodes@.len() <= newt.arena.capacity,
        forall|i: int|
            0 <= i < newt.arena.nodes@.len() ==> #[trigger] node_wf(newt.arena.nodes@, i),
        unique_parents(newt.arena.nodes@),
        newt.root().visits >= 1,
        !(newt.root().edges is None && newt.root().terminal is None),
        newt.root().pos == oldt.root().pos,
        newt.root().edges is Some ==> oldt.root().edges is Some,
        newt.root().edges matches Some(es) ==> ({
            &&& oldt.root().edges->Some_0@.len() == es@.len()
            &&& forall|t: int|
                0 <= t < es@.len() ==> (#[trigger] es@[t]).mv == oldt.root().edges->Some_0@[t].mv
        }),
        newt.edges_legal(),
        newt.edges_distinct(),
        newt.terminals_match(),
    ensures
        newt.wf(),
{
    assert(arena_wf(newt.arena));
    if newt.root().edges is Some && !newt.all_root_moves_excluded() {
        assert(newt.root().pos.spec_moves() == oldt.root().pos.spec_moves());
        let i0 = choose|i0: int|
            0 <= i0 < newt.root().pos.spec_moves().len()
                && !newt.settings.exclude_moves@.contains(
                (#[trigger] newt.root().pos.spec_moves()[i0]).0);
        assert(!oldt.all_root_moves_excluded()) by {
            assert(0 <= i0 < oldt.root().pos.spec_moves().len()
                && !oldt.settings.exclude_moves@.contains(oldt.root().pos.spec_moves()[i0].0));
        }
        let es = newt.root().edges->Some_0;
        let oes = oldt.root().edges->Some_0;
        assert forall|j: int| 0 <= j < es@.len()
            implies !newt.settings.exclude_moves@.contains((#[trigger] es@[j]).mv) by {
            assert(!oldt.settings.exclude_moves@.contains(oes@[j].mv));
        }
    }
    assert(newt.exclusion_respected());
}

/// After a child has been materialized under the last path node, the
/// path facts that backpropagation needs still hold.
proof fn lemma_frontier_bridge<P>(
    before: Seq<Node<P>>,
    after: Seq<Node<P>>,
    path: Seq<usize>,
    parent: usize,
)
    requires
        path_ok(before, path),
        parent == path.last(),
        after.len() == before.len() + 1,
        forall|i: int| 0 <= i < before.len() && i != parent ==> #[trigger] after[i] == before[i],
        after[parent as int].visits == before[parent as int].visits,
        forall|i: int| 0 <= i < after.len() && i != parent ==> node_counts_ok(after, i),
        forall|t: int|
            0 <= t < path.len() ==> before[#[trigger] path[t] as int].visits < VISIT_CAP,
    ensures
        path_ok(after, path),
        forall|t: int| 0 <= t < path.len() ==> after[#[trigger] path[t] as int].visits < VISIT_CAP,
        forall|t: int| 0 <= t < path.len() - 1 ==> node_counts_ok(after, #[trigger] path[t] as int),
        forall|i: int| 0 <= i < after.len() && !path.contains(i as usize) ==> node_counts_ok(after, i),
{
    assert forall|k: int| 0 < k < path.len() implies #[trigger] linked(after, path[k - 1],
        path[k]) by {
        assert(linked(before, path[k - 1], path[k]));
        let jj = choose|jj: int| #[trigger] points_to(before, path[k - 1] as int, jj, path[k]);
        assert(path[k - 1] as int != parent as int) by {
            lemma_path_increasing(before, path, k - 1, path.len() - 1);
        }
        assert(after[path[k - 1] as int] == before[path[k - 1] as int]);
        assert(points_to(after, path[k - 1] as int, jj, path[k]));
    }
    assert(path_ok(after, path));
    assert forall|t: int| 0 <= t < path.len()
        implies after[#[trigger] path[t] as int].visits < VISIT_CAP by {
        if path[t] as int == parent as int {
        } else {
            assert(after[path[t] as int] == before[path[t] as int]);
        }
    }
    assert forall|t: int| 0 <= t < path.len() - 1
        implies node_counts_ok(after, #[trigger] path[t] as int) by {
        assert(path[t] as int != parent as int) by {
            lemma_path_increasing(before, path, t, path.len() - 1);
        }
    }
    assert forall|i: int| 0 <= i < after.len() && !path.contains(i as usize)
        implies node_counts_ok(after, i) by {
        assert(path[path.len() - 1] == parent);
        assert(path.contains(parent));
        assert(i != parent as int);
    }
}

/// After a child has been materialized under the last path node and the
/// path re-accounted, every node still reports legal, distinct moves and
/// a terminal flag matching its position: the fresh child got its edges
/// and flag straight from the oracle, the parent only gained a child
/// link, and nothing else was touched.
#[verifier::rlimit(100)]
proof fn lemma_frontier_oracle_clauses<P: GamePosition>(
    oldt: MonteCarloTree<P>,
    midt: MonteCarloTree<P>,
    newt: MonteCarloTree<P>,
    path: Seq<usize>,
    parent: usize,
    j: int,
)
    requires
        oldt.wf(),
        oldt.root().visits >= 1,
        path_ok(oldt.arena.nodes@, path),
        parent == path.last(),
        midt.arena.nodes@.len() == oldt.arena.nodes@.len() + 1,
        forall|i: int|
            0 <= i < oldt.arena.nodes@.len() && i != parent
                ==> #[trigger] midt.arena.nodes@[i] == oldt.arena.nodes@[i],
        midt.arena.nodes@[parent as int].pos == oldt.arena.nodes@[parent as int].pos,
        midt.arena.nodes@[parent as int].terminal == oldt.arena.nodes@[parent as int].terminal,
        midt.arena.nodes@[parent as int].edges is Some,
        oldt.arena.nodes@[parent as int].edges is Some,
        midt.arena.nodes@[parent as int].edges->Some_0@.len() == oldt.arena.nodes@[
            parent as int].edges->Some_0@.len(),
        0 <= j < midt.arena.nodes@[parent as int].edges->Some_0@.len(),
        forall|t: int|
            0 <= t < midt.arena.nodes@[parent as int].edges->Some_0@.len() && t != j
                ==> #[trigger] midt.arena.nodes@[parent as int].edges->Some_0@[t]
                == oldt.arena.nodes@[parent as int].edges->Some_0@[t],
        midt.arena.nodes@[parent as int].edges->Some_0@[j].mv == oldt.arena.nodes@[
            parent as int].edges->Some_0@[j].mv,
        ({
            let ch = midt.arena.nodes@[oldt.arena.nodes@.len() as int];
            &&& ch.terminal == ch.pos.spec_terminal()
            &&& (ch.edges matches Some(es) ==> edge_mvs(es@) == move_ids(ch.pos.spec_moves()))
            &&& (ch.edges matches Some(es) ==> forall|t1: int, t2: int|
                #![trigger es@[t1], es@[t2]]
                0 <= t1 < t2 < es@.len() ==> es@[t1].mv != es@[t2].mv)
        }),
        newt.settings == oldt.settings,
        newt.arena.nodes@.len() == midt.arena.nodes@.len(),
        forall|i: int|
            0 <= i < midt.arena.nodes@.len() && !path.contains(i as usize)
                ==> #[trigger] newt.arena.nodes@[i] == midt.arena.nodes@[i],
        forall|t: int|
            0 <= t < path.len() ==> {
                let i = #[trigger] path[t] as int;
                &&& newt.arena.nodes@[i].pos == midt.arena.nodes@[i].pos
                &&& newt.arena.nodes@[i].edges == midt.arena.nodes@[i].edges
                &&& newt.arena.nodes@[i].terminal == midt.arena.nodes@[i].terminal
            },
    ensures
        newt.edges_legal(),
        newt.edges_distinct(),
        newt.terminals_match(),
{
    let olds = oldt.arena.nodes@;
    let mids = midt.arena.nodes@;
    let news = newt.arena.nodes@;
    let oldn = olds.len() as int;
    assert forall|i: int| 0 <= i < news.len() implies {
        &&& (#[trigger] news[i]).edges == mids[i].edges
        &&& news[i].pos == mids[i].pos
        &&& news[i].terminal == mids[i].terminal
    } by {
        if path.contains(i as usize) {
            let t = choose|t: int| 0 <= t < path.len() && path[t] == i as usize;
            assert(news[path[t] as int].edges == mids[path[t] as int].edges);
        } else {
            assert(news[i] == mids[i]);
        }
    }
    assert(news[0].pos == olds[0].pos) by {
        if parent != 0 {
            assert(mids[0] == olds[0]);
        }
    }
    assert forall|i: int| 0 <= i < news.len() implies #[trigger] newt.node_edges_legal(i) by {
        if i == parent as int {
            let esn = news[i].edges->Some_0@;
            let eso = olds[i].edges->Some_0@;
            assert(esn == mids[i].edges->Some_0@);
            assert forall|t: int| 0 <= t < esn.len() implies (#[trigger] esn[t]).mv == eso[t].mv
                by {
                if t != j {
                    assert(mids[i].edges->Some_0@[t] == eso[t]);
                }
            }
            assert(edge_mvs(esn) =~= edge_mvs(eso));
            assert(oldt.node_edges_legal(i));
        } else if i == oldn {
        } else {
            assert(mids[i] == olds[i]);
            assert(oldt.node_edges_legal(i));
        }
    }
    assert forall|i: int| 0 <= i < news.len() implies #[trigger] newt.node_edges_distinct(i) by {
        if i == parent as int {
            let esn = news[i].edges->Some_0@;
            let eso = olds[i].edges->Some_0@;
            assert(esn == mids[i].edges->Some_0@);
            assert(oldt.node_edges_distinct(i));
            assert forall|t1: int, t2: int|
                #![trigger esn[t1], esn[t2]]
                0 <= t1 < t2 < esn.len() implies esn[t1].mv != esn[t2].mv by {
                assert(esn[t1].mv == eso[t1].mv) by {
                    if t1 != j {
                        assert(mids[i].edges->Some_0@[t1] == eso[t1]);
                    }
                }
                assert(esn[t2].mv == eso[t2].mv) by {
                    if t2 != j {
                        assert(mids[i].edges->Some_0@[t2] == eso[t2]);
                    }
                }
            }
        } else if i == oldn {
        } else {
            assert(mids[i] == olds[i]);
            assert(oldt.node_edges_distinct(i));
        }
    }
    assert forall|i: int| 0 <= i < news.len() implies (#[trigger] news[i]).terminal
        == news[i].pos.spec_terminal() by {
        if i == oldn {
        } else if i == parent as int {
            assert(olds[i].terminal == olds[i].pos.spec_terminal());
        } else {
            assert(mids[i] == olds[i]);
            assert(olds[i].terminal == olds[i].pos.spec_terminal());
        }
    }
    assert(newt.terminals_match());
}

/// After materializing a child under the last path node and closing the
/// books along the path, the whole tree is again in good standing and the
/// select-level guarantees hold.
#[verifier::rlimit(100)]
proof fn lemma_frontier_post<P: GamePosition>(
    oldt: MonteCarloTree<P>,
    midt: MonteCarloTree<P>,
    newt: MonteCarloTree<P>,
    path: Seq<usize>,
    parent: usize,
    j: int,
)
    requires
        oldt.wf(),
        oldt.root().visits >= 1,
        path_ok(oldt.arena.nodes@, path),
        parent == path.last(),
        // What materializing left behind.
        midt.settings == oldt.settings,
        midt.arena.capacity == oldt.arena.capacity,
        midt.arena.nodes@.len() == oldt.arena.nodes@.len() + 1,
        midt.arena.nodes@.len() <= midt.arena.capacity,
        forall|i: int|
            0 <= i < oldt.arena.nodes@.len() && i != parent
                ==> #[trigger] midt.arena.nodes@[i] == oldt.arena.nodes@[i],
        midt.arena.nodes@[parent as int].visits == oldt.arena.nodes@[parent as int].visits,
        midt.arena.nodes@[parent as int].pos == oldt.arena.nodes@[parent as int].pos,
        midt.arena.nodes@[parent as int].terminal == oldt.arena.nodes@[parent as int].terminal,
        midt.arena.nodes@[parent as int].edges is Some,
        oldt.arena.nodes@[parent as int].edges is Some,
        midt.arena.nodes@[parent as int].edges->Some_0@.len() == oldt.arena.nodes@[
            parent as int].edges->Some_0@.len(),
        0 <= j < midt.arena.nodes@[parent as int].edges->Some_0@.len(),
        forall|t: int|
            0 <= t < midt.arena.nodes@[parent as int].edges->Some_0@.len() && t != j
                ==> #[trigger] midt.arena.nodes@[parent as int].edges->Some_0@[t]
                == oldt.arena.nodes@[parent as int].edges->Some_0@[t],
        midt.arena.nodes@[parent as int].edges->Some_0@[j].mv == oldt.arena.nodes@[
            parent as int].edges->Some_0@[j].mv,
        ({
            let ch = midt.arena.nodes@[oldt.arena.nodes@.len() as int];
            &&& ch.terminal == ch.pos.spec_terminal()
            &&& (ch.edges matches Some(es) ==> edge_mvs(es@) == move_ids(ch.pos.spec_moves()))
            &&& (ch.edges matches Some(es) ==> forall|t1: int, t2: int|
                #![trigger es@[t1], es@[t2]]
                0 <= t1 < t2 < es@.len() ==> es@[t1].mv != es@[t2].mv)
        }),
        // What backpropagation left behind.
        newt.settings == midt.settings,
        newt.rng == midt.rng,
        crate::rng::rng_wf(newt.rng),
        newt.arena.capacity == midt.arena.capacity,
        newt.arena.nodes@.len() == midt.arena.nodes@.len(),
        forall|i: int|
            0 <= i < midt.arena.nodes@.len() && !path.contains(i as usize)
                ==> #[trigger] newt.arena.nodes@[i] == midt.arena.nodes@[i],
        forall|t: int|
            0 <= t < path.len() ==> {
                let i = #[trigger] path[t] as int;
                &&& newt.arena.nodes@[i].visits == midt.arena.nodes@[i].visits + 1
                &&& newt.arena.nodes@[i].pos == midt.arena.nodes@[i].pos
                &&& newt.arena.nodes@[i].edges == midt.arena.nodes@[i].edges
                &&& newt.arena.nodes@[i].terminal == midt.arena.nodes@[i].terminal
            },
        forall|i: int|
            0 <= i < newt.arena.nodes@.len() ==> #[trigger] node_wf(newt.arena.nodes@, i),
        unique_parents(newt.arena.nodes@),
    ensures
        newt.wf(),
        newt.settings == oldt.settings,
        newt.root().visits == oldt.root().visits + 1,
        newt.arena.nodes@.len() == oldt.arena.nodes@.len() + 1,
        forall|i: int|
            0 <= i < oldt.arena.nodes@.len()
                ==> (#[trigger] newt.arena.nodes@[i]).visits >= oldt.arena.nodes@[i].visits,
        newt.root().pos == oldt.root().pos,
        newt.root().terminal == oldt.root().terminal,
{
    assert(path.contains(path[0]));
    assert(path[0] == 0usize);
    let news = newt.arena.nodes@;
    let olds = oldt.arena.nodes@;
    assert forall|i: int| 0 <= i < olds.len()
        implies (#[trigger] news[i]).visits >= olds[i].visits by {
        if path.contains(i as usize) {
            let t = choose|t: int| 0 <= t < path.len() && path[t] == i as usize;
            assert(news[path[t] as int].visits == midt.arena.nodes@[path[t] as int].visits + 1);
            if i != parent {
                assert(midt.arena.nodes@[i] == olds[i]);
            }
        } else {
            assert(i != parent as int) by {
                assert(path.contains(parent));
            }
            assert(news[i] == midt.arena.nodes@[i]);
            assert(midt.arena.nodes@[i] == olds[i]);
        }
    }
    assert(news[0].terminal == olds[0].terminal);
    assert(news[0].pos == olds[0].pos);
    assert(news[0].visits == olds[0].visits + 1);
    if news[0].edges is Some {
        assert(olds[0].edges is Some) by {
            if parent == 0 {
            } else {
                assert(midt.arena.nodes@[0] == olds[0]);
            }
        }
        let fes = news[0].edges->Some_0@;
        let oes = olds[0].edges->Some_0@;
        assert(fes == midt.arena.nodes@[0].edges->Some_0@);
        assert(fes.len() == oes.len());
        assert forall|t: int| 0 <= t < fes.len() implies (#[trigger] fes[t]).mv == oes[t].mv
            by {
            if parent == 0 {
                if t != j {
                    assert(midt.arena.nodes@[0].edges->Some_0@[t] == oes[t]);
                }
            } else {
                assert(midt.arena.nodes@[0] == olds[0]);
            }
        }
    }
    assert(!(news[0].edges is None && news[0].terminal is None)) by {
        assert(olds[0].visits >= 1);
    }
    lemma_frontier_oracle_clauses(oldt, midt, newt, path, parent, j);
    lemma_select_rewf(oldt, newt);
}

/// Values a fresh leaf: directly by the evaluator, or by a stochastic
/// rollout when the settings ask for one.
fn leaf_value<P: GamePosition>(
    rng: &mut crate::rng::SearchRng,
    pos: &P,
    depth: u16,
    greed: u64,
) -> (v: u64)
    requires
        crate::rng::rng_wf(*old(rng)),
        greed <= crate::settings::GREED_MAX,
    ensures
        crate::rng::rng_wf(*final(rng)),
        v <= UNIT,
{
    if depth == 0 {
        pos.static_value()
    } else {
        rollout(rng, pos, depth, greed)
    }
}

impl<P: GamePosition> MonteCarloTree<P> {
    /// Expands the root on the first simulation: terminal outcome cached,
    /// or edges built from the oracle's moves with the exclusion set
    /// dropped and optional exploration noise blended in, and the root
    /// evaluated.
    fn expand_root(&mut self)
        requires
            old(self).wf(),
            old(self).root().visits == 0,
        ensures
            final(self).wf(),
            final(self).settings == old(self).settings,
            final(self).arena.nodes@.len() == 1,
            final(self).arena.capacity == old(self).arena.capacity,
            final(self).root().visits == 1,
            final(self).root().pos == old(self).root().pos,
            final(self).root().terminal is Some ==> old(self).root().pos.spec_terminal() is Some,
    {
        let ghost old_nodes = self.arena.nodes@;
        let term: Option<u64> = self.arena.nodes[0].pos.terminal_value();
        match term {
            Some(v) => {
                let node = &mut self.arena.nodes[0];
                node.terminal = Some(v);
                node.visits = 1;
                node.value_sum = v;
                proof {
                    assert(self.arena.nodes@.len() == 1);
                    assert(node_wf(self.arena.nodes@, 0));
                    assert forall|p1: int, j1: int, p2: int, j2: int, c: usize|
                        #[trigger] points_to(self.arena.nodes@, p1, j1, c)
                        && #[trigger] points_to(self.arena.nodes@, p2, j2, c)
                        implies p1 == p2 && j1 == j2 by {
                        assert(self.arena.nodes@[p1].edges is None);
                    }
                    assert(self.node_edges_legal(0));
                    assert(self.node_edges_distinct(0));
                    assert(self.arena.nodes@[0].terminal
                        == self.arena.nodes@[0].pos.spec_terminal());
                }
            },
            None => {
                let moves: Vec<(u64, u64)> = self.arena.nodes[0].pos.moves_with_priors();
                let filtered: Vec<(u64, u64)> = filter_excluded(
                    &moves,
                    &self.settings.exclude_moves,
                );
                proof {
                    lemma_allowed_moves_elems(moves@, self.settings.exclude_moves@);
                    lemma_allowed_moves_empty(moves@, self.settings.exclude_moves@);
                }
                let ghost fell_back = filtered@.len() == 0;
                let kept: Vec<(u64, u64)> = if filtered.len() == 0 {
                    moves
                } else {
                    filtered
                };
                proof {
                    assert forall|t: int| 0 <= t < kept@.len()
                        implies (#[trigger] kept@[t]).1 <= UNIT by {
                        if !fell_back {
                            assert(exists|i: int|
                                0 <= i < moves@.len() && moves@[i] == allowed_moves(
                                    moves@,
                                    self.settings.exclude_moves@,
                                )[t]);
                        }
                    }
                }
                let depth: u16 = self.settings.rollout_depth;
                let greed: u64 = self.settings.rollout_greed;
                let noise: Option<u64> = self.settings.noise_weight;
                let mixed: Vec<(u64, u64)> = match noise {
                    Some(w) => blend_noise(&mut self.rng, &kept, w),
                    None => kept,
                };
                let shares: Vec<(u64, u64)> = renormalize(&mixed);
                let es: Vec<Edge> = edges_from_moves(&shares);
                let v: u64 = leaf_value(&mut self.rng, &self.arena.nodes[0].pos, depth, greed);
                let node = &mut self.arena.nodes[0];
                node.edges = Some(es);
                node.visits = 1;
                node.value_sum = v;
                proof {
                    assert(self.arena.nodes@.len() == 1);
                    let nodes = self.arena.nodes@;
                    let esv = nodes[0].edges->Some_0@;
                    assert forall|j: int| 0 <= j < esv.len()
                        implies edge_wf(nodes, 0, #[trigger] esv[j]) by {
                        assert(esv[j].child is None);
                    }
                    lemma_sum_no_children(nodes, esv);
                    assert(node_wf(nodes, 0));
                    assert forall|p1: int, j1: int, p2: int, j2: int, c: usize|
                        #[trigger] points_to(nodes, p1, j1, c)
                        && #[trigger] points_to(nodes, p2, j2, c)
                        implies p1 == p2 && j1 == j2 by {
                        assert(nodes[p1].edges->Some_0@[j1].child is None);
                    }
                    assert(arena_wf(self.arena));
                    // Exclusion respected: either every legal root move was
                    // excluded (and the set was ignored), or every edge
                    // carries a move the filter let through.
                    if !self.all_root_moves_excluded() {
                        assert(!fell_back);
                        assert forall|j: int| 0 <= j < esv.len()
                            implies !self.settings.exclude_moves@.contains(
                            (#[trigger] esv[j]).mv) by {
                            assert(esv[j].mv == shares@[j].0);
                            assert(shares@[j].0 == mixed@[j].0);
                            assert(mixed@[j].0 == allowed_moves(
                                moves@,
                                self.settings.exclude_moves@,
                            )[j].0);
                        }
                    }
                    // The edges carry exactly the filtered legal moves
                    // (or all legal moves, when filtering left none).
                    assert forall|j: int| 0 <= j < esv.len()
                        implies (#[trigger] esv[j]).mv == kept@[j].0 by {
                        assert(esv[j].mv == shares@[j].0);
                        assert(shares@[j].0 == mixed@[j].0);
                    }
                    assert(edge_mvs(esv) =~= move_ids(kept@));
                    assert(self.node_edges_legal(0)) by {
                        if fell_back {
                            assert(kept@ == moves@);
                        } else {
                            assert(kept@ == allowed_moves(
                                moves@,
                                self.settings.exclude_moves@,
                            ));
                        }
                    }
                    assert(self.node_edges_distinct(0)) by {
                        lemma_allowed_moves_distinct(moves@, self.settings.exclude_moves@);
                        assert forall|t1: int, t2: int|
                            #![trigger esv[t1], esv[t2]]
                            0 <= t1 < t2 < esv.len() implies esv[t1].mv != esv[t2].mv by {
                            assert(esv[t1].mv == kept@[t1].0);
                            assert(esv[t2].mv == kept@[t2].0);
                            if fell_back {
                                assert(kept@[t1] == moves@[t1]);
                                assert(kept@[t2] == moves@[t2]);
                            } else {
                                let a = allowed_moves(moves@, self.settings.exclude_moves@);
                                assert(kept@[t1] == a[t1]);
                                assert(kept@[t2] == a[t2]);
                            }
                        }
                    }
                    assert(self.arena.nodes@[0].terminal
                        == self.arena.nodes@[0].pos.spec_terminal());
                    assert(self.wf());
                }
            },
        }
    }

    /// The index of the edge of node `i` with the highest selection score;
    /// ties go to the earliest edge, for reproducibility.
    fn best_edge_index(&self, i: usize) -> (r: usize)
        requires
            self.wf(),
            (i as int) < self.arena.nodes@.len(),
            self.arena.nodes@[i as int].edges is Some,
        ensures
            (r as int) < self.arena.nodes@[i as int].edges->Some_0@.len(),
            ({
                let nodes = self.arena.nodes@;
                let es = nodes[i as int].edges->Some_0@;
                let sq = crate::fixed::isqrt_val(nodes[i as int].visits * 65536) * 256;
                let cp = self.settings.exploration as int;
                &&& (forall|j: int|
                    0 <= j < es.len() ==> spec_score(nodes, #[trigger] es[j], sq, cp)
                        <= spec_score(nodes, es[r as int], sq, cp))
                &&& (forall|j: int|
                    0 <= j < r ==> spec_score(nodes, #[trigger] es[j], sq, cp) < spec_score(
                        nodes,
                        es[r as int],
                        sq,
                        cp,
                    ))
            }),
    {
        proof {
            assert(node_wf(self.arena.nodes@, i as int));
        }
        let parent_visits: u64 = self.arena.nodes[i].visits;
        let sq: u64 = crate::fixed::sqrt_scaled(parent_visits);
        let cp: u64 = self.settings.exploration;
        let es: &Vec<Edge> = match &self.arena.nodes[i].edges {
            Some(es) => es,
            None => unreached(),
        };
        let mut best: usize = 0;
        proof {
            assert(edge_wf(self.arena.nodes@, i as int, es@[0]));
            if es@[0].child is Some {
                let c = es@[0].child->0;
                assert(node_wf(self.arena.nodes@, c as int));
            }
        }
        let mut best_score: u64 = score_edge(&self.arena.nodes, &es[0], sq, cp);
        let mut j: usize = 1;
        while j < es.len()
            invariant
                self.wf(),
                (i as int) < self.arena.nodes@.len(),
                self.arena.nodes@[i as int].edges is Some,
                es == self.arena.nodes@[i as int].edges->Some_0,
                cp == self.settings.exploration,
                cp <= EXPLORATION_MAX,
                sq == crate::fixed::isqrt_val(self.arena.nodes@[i as int].visits * 65536) * 256,
                sq <= 0x10_0000_0000,
                1 <= j <= es@.len(),
                (best as int) < j,
                best_score == spec_score(self.arena.nodes@, es@[best as int], sq as int,
                    cp as int),
                forall|t: int|
                    0 <= t < j ==> spec_score(self.arena.nodes@, #[trigger] es@[t], sq as int,
                        cp as int) <= best_score,
                forall|t: int|
                    0 <= t < best ==> spec_score(self.arena.nodes@, #[trigger] es@[t], sq as int,
                        cp as int) < best_score,
            decreases es@.len() - j,
        {
            proof {
                assert(node_wf(self.arena.nodes@, i as int));
                assert(edge_wf(self.arena.nodes@, i as int, es@[j as int]));
                if es@[j as int].child is Some {
                    let c = es@[j as int].child->0;
                    assert(node_wf(self.arena.nodes@, c as int));
                }
            }
            let s: u64 = score_edge(&self.arena.nodes, &es[j], sq, cp);
            if s > best_score {
                best = j;
                best_score = s;
            }
            j = j + 1;
        }
        best
    }

    /// Materializes the child behind edge `j` of node `parent`: applies
    /// the move, expands or caches the terminal outcome, evaluates the
    /// fresh node and links it.  Returns the fresh node's value, from the
    /// perspective of the side to move there.
    ///
    /// Visit accounting is left deliberately one short at `parent` (its
    /// count equals its children's counts, not one more): the caller's
    /// backpropagation closes the books.
    #[verifier::rlimit(100)]
    fn materialize(&mut self, parent: usize, j: usize) -> (r: u64)
        requires
            old(self).wf(),
            (parent as int) < old(self).arena.nodes@.len(),
            old(self).arena.nodes@[parent as int].edges is Some,
            (j as int) < old(self).arena.nodes@[parent as int].edges->Some_0@.len(),
            old(self).arena.nodes@[parent as int].edges->Some_0@[j as int].child is None,
            old(self).arena.nodes@.len() < old(self).arena.capacity,
        ensures
            r <= UNIT,
            final(self).settings == old(self).settings,
            final(self).arena.capacity == old(self).arena.capacity,
            crate::rng::rng_wf(final(self).rng),
            final(self).arena.nodes@.len() == old(self).arena.nodes@.len() + 1,
            forall|i: int|
                0 <= i < old(self).arena.nodes@.len() && i != parent
                    ==> final(self).arena.nodes@[i] == old(self).arena.nodes@[i],
            ({
                let np = final(self).arena.nodes@[parent as int];
                let op = old(self).arena.nodes@[parent as int];
                &&& np.pos == op.pos
                &&& np.visits == op.visits
                &&& np.value_sum == op.value_sum
                &&& np.terminal == op.terminal
                &&& np.edges is Some
                &&& np.edges->Some_0@.len() == op.edges->Some_0@.len()
                &&& (forall|t: int|
                    0 <= t < np.edges->Some_0@.len() && t != j
                        ==> np.edges->Some_0@[t] == op.edges->Some_0@[t])
                &&& np.edges->Some_0@[j as int].mv == op.edges->Some_0@[j as int].mv
                &&& np.edges->Some_0@[j as int].prior == op.edges->Some_0@[j as int].prior
                &&& np.edges->Some_0@[j as int].child == Some(
                    old(self).arena.nodes@.len() as usize,
                )
            }),
            ({
                let ch = final(self).arena.nodes@[old(self).arena.nodes@.len() as int];
                &&& ch.visits == 1
                &&& ch.value_sum == r
                &&& ch.terminal == ch.pos.spec_terminal()
                &&& (ch.edges matches Some(es) ==> edge_mvs(es@) == move_ids(
                    ch.pos.spec_moves(),
                ))
                &&& (ch.edges matches Some(es) ==> forall|t1: int, t2: int|
                    #![trigger es@[t1], es@[t2]]
                    0 <= t1 < t2 < es@.len() ==> es@[t1].mv != es@[t2].mv)
            }),
            unique_parents(final(self).arena.nodes@),
            forall|i: int|
                0 <= i < final(self).arena.nodes@.len()
                    ==> node_stats_wf(final(self).arena.nodes@, i),
            forall|i: int|
                0 <= i < final(self).arena.nodes@.len() && i != parent
                    ==> node_counts_ok(final(self).arena.nodes@, i),
            final(self).arena.nodes@[parent as int].visits == child_visits_sum(
                final(self).arena.nodes@,
                final(self).arena.nodes@[parent as int].edges->Some_0@,
            ),
    {
        let ghost old_nodes = self.arena.nodes@;
        let old_len: usize = self.arena.len();
        proof {
            assert(node_wf(old_nodes, parent as int));
        }
        let mv: u64 = match &self.arena.nodes[parent].edges {
            Some(es) => es[j].mv,
            None => unreached(),
        };
        let newpos: P = self.arena.nodes[parent].pos.apply_move(mv);
        let depth: u16 = self.settings.rollout_depth;
        let greed: u64 = self.settings.rollout_greed;
        let term: Option<u64> = newpos.terminal_value();
        let (node, v): (Node<P>, u64) = match term {
            Some(tv) => {
                let n = Node {
                    pos: newpos,
                    visits: 1,
                    value_sum: tv,
                    terminal: Some(tv),
                    edges: None,
                };
                proof {
                    assert(n.terminal == n.pos.spec_terminal());
                }
                (n, tv)
            },
            None => {
                let mvs: Vec<(u64, u64)> = newpos.moves_with_priors();
                let es_new: Vec<Edge> = edges_from_moves(&mvs);
                let v: u64 = leaf_value(&mut self.rng, &newpos, depth, greed);
                let n = Node {
                    pos: newpos,
                    visits: 1,
                    value_sum: v,
                    terminal: None,
                    edges: Some(es_new),
                };
                proof {
                    assert(n.terminal == n.pos.spec_terminal());
                    assert(edge_mvs(n.edges->Some_0@) =~= move_ids(n.pos.spec_moves()));
                    assert forall|t1: int, t2: int|
                        #![trigger n.edges->Some_0@[t1], n.edges->Some_0@[t2]]
                        0 <= t1 < t2 < n.edges->Some_0@.len()
                        implies n.edges->Some_0@[t1].mv != n.edges->Some_0@[t2].mv by {
                        assert(n.edges->Some_0@[t1].mv == mvs@[t1].0);
                        assert(n.edges->Some_0@[t2].mv == mvs@[t2].0);
                    }
                }
                (n, v)
            },
        };
        let ghost fresh: Node<P> = node;
        let idx_opt: Option<usize> = self.arena.allocate(node);
        let idx: usize = match idx_opt {
            Some(i) => i,
            None => unreached(),
        };
        let ghost nodes1 = self.arena.nodes@;
        proof {
            assert(nodes1 == old_nodes.push(fresh));
            assert(idx == old_len);
            // The fresh node is in good standing on its own.
            assert(node_stats_wf(nodes1, old_len as int)) by {
                if fresh.edges is Some {
                    assert forall|t: int| 0 <= t < fresh.edges->Some_0@.len()
                        implies edge_wf(nodes1, old_len as int,
                            #[trigger] fresh.edges->Some_0@[t]) by {
                        assert(fresh.edges->Some_0@[t].child is None);
                    }
                }
            }
            assert(node_counts_ok(nodes1, old_len as int)) by {
                if fresh.edges is Some {
                    lemma_sum_no_children(nodes1, fresh.edges->Some_0@);
                }
            }
        }
        match &mut self.arena.nodes[parent].edges {
            Some(es) => {
                es[j].child = Some(idx);
            },
            None => {
                proof {
                    assert(false);
                }
            },
        }
        proof {
            let nodes2 = self.arena.nodes@;
            let op = old_nodes[parent as int];
            let np = nodes2[parent as int];
            let es_old = op.edges->Some_0@;
            let es_new2 = np.edges->Some_0@;
            assert(nodes2.len() == old_len + 1);
            assert(np.edges is Some);
            assert(es_new2.len() == es_old.len());
            assert(es_new2 =~= es_old.update(j as int, Edge {
                mv: es_old[j as int].mv,
                prior: es_old[j as int].prior,
                child: Some(idx),
            }));
            assert(forall|i: int| 0 <= i < nodes2.len() && i != parent
                ==> nodes2[i] == nodes1[i]);

            // Every edge of every old node points below old_len.
            assert forall|p: int, t: int|
                0 <= p < old_len && old_nodes[p].edges is Some && 0 <= t
                    < old_nodes[p].edges->Some_0@.len()
                    && (#[trigger] old_nodes[p].edges->Some_0@[t]).child is Some
                implies (old_nodes[p].edges->Some_0@[t].child->0 as int) < old_len by {
                assert(node_wf(old_nodes, p));
                assert(edge_wf(old_nodes, p, old_nodes[p].edges->Some_0@[t]));
            }

            // Stats hold everywhere.
            assert forall|i: int| 0 <= i < nodes2.len() implies node_stats_wf(nodes2, i) by {
                if i == parent {
                    assert(node_stats_wf(old_nodes, i));
                    lemma_edge_prior_sum_update(es_old, es_new2, j as int);
                    assert forall|t: int| 0 <= t < es_new2.len()
                        implies edge_wf(nodes2, i, #[trigger] es_new2[t]) by {
                        if t == j {
                        } else {
                            assert(es_new2[t] == es_old[t]);
                            assert(edge_wf(old_nodes, i, es_old[t]));
                        }
                    }
                } else if i == old_len {
                    assert(nodes2[i] == fresh);
                    assert(node_stats_wf(nodes1, i));
                    if fresh.edges is Some {
                        assert forall|t: int| 0 <= t < fresh.edges->Some_0@.len()
                            implies edge_wf(nodes2, i, #[trigger] fresh.edges->Some_0@[t]) by {
                            assert(fresh.edges->Some_0@[t].child is None);
                        }
                    }
                } else {
                    assert(nodes2[i] == old_nodes[i]);
                    assert(node_wf(old_nodes, i));
                    assert(node_stats_wf(old_nodes, i));
                    if old_nodes[i].edges is Some {
                        assert forall|t: int| 0 <= t < old_nodes[i].edges->Some_0@.len()
                            implies edge_wf(nodes2, i,
                                #[trigger] old_nodes[i].edges->Some_0@[t]) by {
                            assert(edge_wf(old_nodes, i, old_nodes[i].edges->Some_0@[t]));
                        }
                    }
                }
            }

            // The arena is still a tree: the only edge into the fresh node
            // is the one just linked, and all other links are as before.
            assert forall|p1: int, j1: int, p2: int, j2: int, c: usize|
                #[trigger] points_to(nodes2, p1, j1, c) && #[trigger] points_to(nodes2, p2, j2, c)
                implies p1 == p2 && j1 == j2 by {
                assert forall|p: int, t: int|
                    #[trigger] points_to(nodes2, p, t, c)
                    implies ((p == parent && t == j && c == idx) || points_to(old_nodes, p, t,
                        c)) by {
                    if p == old_len {
                        assert(fresh.edges is Some ==> nodes2[p].edges->Some_0@[t].child is None);
                    } else if p == parent && t == j {
                    } else if p == parent {
                        assert(es_new2[t] == es_old[t]);
                    } else {
                        assert(nodes2[p] == old_nodes[p]);
                    }
                }
                if p1 == parent && j1 == j && c == idx {
                    if !(p2 == parent && j2 == j) {
                        assert(points_to(old_nodes, p2, j2, c));
                        assert((old_nodes[p2].edges->Some_0@[j2].child->0 as int) < old_len);
                        assert(false);
                    }
                } else if p2 == parent && j2 == j && c == idx {
                    assert(points_to(old_nodes, p1, j1, c));
                    assert((old_nodes[p1].edges->Some_0@[j1].child->0 as int) < old_len);
                    assert(false);
                } else {
                    assert(points_to(old_nodes, p1, j1, c));
                    assert(points_to(old_nodes, p2, j2, c));
                    assert(unique_parents(old_nodes));
                }
            }

            // Visit accounting away from the parent.
            assert forall|i: int| 0 <= i < nodes2.len() && i != parent
                implies node_counts_ok(nodes2, i) by {
                if i == old_len {
                    if fresh.edges is Some {
                        lemma_sum_no_children(nodes2, fresh.edges->Some_0@);
                    }
                } else {
                    assert(nodes2[i] == old_nodes[i]);
                    assert(node_wf(old_nodes, i));
                    assert(node_counts_ok(old_nodes, i));
                    if old_nodes[i].edges is Some {
                        let esi = old_nodes[i].edges->Some_0@;
                        assert forall|t: int| 0 <= t < esi.len()
                            implies edge_visits(nodes2, #[trigger] esi[t]) == edge_visits(
                            old_nodes, esi[t]) by {
                            if esi[t].child is Some {
                                let c = esi[t].child->0;
                                assert((c as int) < old_len);
                                if (c as int) == parent {
                                    assert(nodes2[c as int].visits == old_nodes[
                                        c as int].visits);
                                } else {
                                    assert(nodes2[c as int] == old_nodes[c as int]);
                                }
                            }
                        }
                        lemma_sum_congruent(old_nodes, nodes2, esi);
                    }
                }
            }

            // At the parent the books are one short, for backprop to close:
            // its count equals its children's counts (the fresh child
            // contributing its single visit).
            assert(node_counts_ok(old_nodes, parent as int));
            assert forall|t: int| 0 <= t < es_old.len()
                implies edge_visits(nodes2, #[trigger] es_old[t]) == edge_visits(old_nodes,
                    es_old[t]) by {
                if es_old[t].child is Some {
                    let c = es_old[t].child->0;
                    assert((c as int) < old_len);
                    if (c as int) == parent {
                        assert(nodes2[c as int].visits == old_nodes[c as int].visits);
                    } else {
                        assert(nodes2[c as int] == old_nodes[c as int]);
                    }
                }
            }
            lemma_sum_congruent(old_nodes, nodes2, es_old);
            lemma_sum_update_edge(nodes2, es_old, es_new2, j as int);
            assert(edge_visits(nodes2, es_new2[j as int]) == 1);
            assert(child_visits_sum(nodes2, es_new2) == child_visits_sum(old_nodes, es_old) + 1);
        }
        v
    }

    /// Adds one visit and the simulation's value to every node on the
    /// path, flipping the value at each step up because the turns
    /// alternate, and thereby restores visit accounting everywhere.
    #[verifier::rlimit(100)]
    fn backprop(&mut self, path: &Vec<usize>, leaf_value: u64)
        requires
            path_ok(old(self).arena.nodes@, path@),
            leaf_value <= UNIT,
            unique_parents(old(self).arena.nodes@),
            forall|i: int|
                0 <= i < old(self).arena.nodes@.len()
                    ==> node_stats_wf(old(self).arena.nodes@, i),
            forall|i: int|
                0 <= i < old(self).arena.nodes@.len() && !path@.contains(i as usize)
                    ==> node_counts_ok(old(self).arena.nodes@, i),
            forall|t: int|
                0 <= t < path@.len() - 1
                    ==> node_counts_ok(old(self).arena.nodes@, #[trigger] path@[t] as int),
            ({
                let li = path@.last() as int;
                let n = old(self).arena.nodes@[li];
                n.edges matches Some(es) ==> n.visits == child_visits_sum(
                    old(self).arena.nodes@,
                    es@,
                )
            }),
            forall|t: int|
                0 <= t < path@.len()
                    ==> old(self).arena.nodes@[#[trigger] path@[t] as int].visits < VISIT_CAP,
        ensures
            final(self).settings == old(self).settings,
            final(self).rng == old(self).rng,
            final(self).arena.capacity == old(self).arena.capacity,
            final(self).arena.nodes@.len() == old(self).arena.nodes@.len(),
            forall|i: int|
                0 <= i < old(self).arena.nodes@.len() && !path@.contains(i as usize)
                    ==> final(self).arena.nodes@[i] == old(self).arena.nodes@[i],
            forall|t: int|
                0 <= t < path@.len() ==> {
                    let i = #[trigger] path@[t] as int;
                    &&& final(self).arena.nodes@[i].visits == old(self).arena.nodes@[i].visits
                        + 1
                    &&& final(self).arena.nodes@[i].pos == old(self).arena.nodes@[i].pos
                    &&& final(self).arena.nodes@[i].edges == old(self).arena.nodes@[i].edges
                    &&& final(self).arena.nodes@[i].terminal == old(self).arena.nodes@[i].terminal
                },
            forall|i: int|
                0 <= i < final(self).arena.nodes@.len() ==> #[trigger] node_wf(
                    final(self).arena.nodes@,
                    i,
                ),
            unique_parents(final(self).arena.nodes@),
    {
        let nlen: usize = self.arena.nodes.len();
        let ghost orig = self.arena.nodes@;
        let ghost gsettings = self.settings;
        let ghost grng = self.rng;
        let ghost gcap = self.arena.capacity;
        let mut k: usize = path.len();
        let mut v: u64 = leaf_value;
        while k > 0
            invariant
                0 <= k <= path@.len(),
                v <= UNIT,
                path_ok(orig, path@),
                unique_parents(orig),
                self.settings == gsettings,
                self.rng == grng,
                self.arena.capacity == gcap,
                self.arena.nodes@.len() == orig.len(),
                forall|i: int| 0 <= i < orig.len() ==> node_stats_wf(orig, i),
                forall|t: int|
                    0 <= t < path@.len()
                        ==> orig[#[trigger] path@[t] as int].visits < VISIT_CAP,
                forall|i: int|
                    0 <= i < orig.len() ==> (#[trigger] self.arena.nodes@[i]).edges == orig[i].edges
                        && self.arena.nodes@[i].pos == orig[i].pos
                        && self.arena.nodes@[i].terminal == orig[i].terminal,
                forall|i: int|
                    0 <= i < orig.len() && !path@.contains(i as usize)
                        ==> self.arena.nodes@[i] == orig[i],
                forall|t: int|
                    0 <= t < k ==> self.arena.nodes@[#[trigger] path@[t] as int] == orig[path@[t]
                        as int],
                forall|t: int|
                    k <= t < path@.len() ==> self.arena.nodes@[#[trigger] path@[t] as int].visits
                        == orig[path@[t] as int].visits + 1,
                forall|i: int|
                    0 <= i < orig.len() ==> node_stats_wf(self.arena.nodes@, i),
                forall|i: int|
                    0 <= i < orig.len() && !path@.contains(i as usize) ==> node_counts_ok(
                        self.arena.nodes@,
                        i,
                    ),
                forall|t: int|
                    0 <= t < path@.len() && t != k - 1 ==> node_counts_ok(
                        self.arena.nodes@,
                        #[trigger] path@[t] as int,
                    ),
                k >= 1 ==> ({
                    let i = path@[k - 1] as int;
                    self.arena.nodes@[i].edges matches Some(es)
                        ==> self.arena.nodes@[i].visits == child_visits_sum(
                        self.arena.nodes@,
                        es@,
                    )
                }),
            decreases k,
        {
            k = k - 1;
            let idx: usize = path[k];
            let ghost pre = self.arena.nodes@;
            proof {
                assert(pre[idx as int] == orig[idx as int]);
                assert(node_stats_wf(orig, idx as int));
                assert(orig[idx as int].value_sum <= orig[idx as int].visits * UNIT);
                vstd::arithmetic::mul::lemma_mul_inequality(orig[idx as int].visits as int,
                    VISIT_CAP as int, UNIT as int);
            }
            let n = &mut self.arena.nodes[idx];
            n.visits = n.visits + 1;
            n.value_sum = n.value_sum + v;
            proof {
                let cur = self.arena.nodes@;
                assert(node_stats_wf(cur, idx as int)) by {
                    assert(cur[idx as int].value_sum <= orig[idx as int].visits * UNIT + UNIT);
                    assert((orig[idx as int].visits + 1) * UNIT == orig[idx as int].visits * UNIT
                        + UNIT) by (nonlinear_arith);
                    if cur[idx as int].edges is Some {
                        assert forall|t: int| 0 <= t < cur[idx as int].edges->Some_0@.len()
                            implies edge_wf(cur, idx as int,
                                #[trigger] cur[idx as int].edges->Some_0@[t]) by {
                            assert(edge_wf(pre, idx as int, pre[idx as int].edges->Some_0@[t]));
                        }
                    }
                }
                lemma_backprop_step(orig, pre, cur, path@, k as int, idx);
                assert forall|t: int| 0 <= t < k implies self.arena.nodes@[#[trigger] path@[t]
                    as int] == orig[path@[t] as int] by {
                    lemma_path_increasing(orig, path@, t, k as int);
                    assert(path@[t] != idx);
                    assert(cur[path@[t] as int] == pre[path@[t] as int]);
                }
            }
            v = UNIT - v;
        }
        proof {
            lemma_backprop_finish(orig, self.arena.nodes@, path@);
        }
    }

    /// Runs exactly one simulation: a root-to-leaf walk by the selection
    /// formula, expansion of the frontier node, evaluation, and
    /// backpropagation along the walked path.
    ///
    /// Returns `None` - leaving the tree untouched - when the arena cannot
    /// supply the node this simulation needs (or the visit cap is
    /// reached): that is the controlled exhaustion signal, not an error,
    /// and all statistics gathered so far stay valid and queryable.  On
    /// success the root's visit count grows by exactly one, and no node's
    /// visit count ever decreases.
    #[verifier::rlimit(100)]
    pub fn select(&mut self) -> (r: Option<()>)
        requires
            old(self).wf(),
        ensures
            final(self).wf(),
            final(self).settings == old(self).settings,
            r is None ==> *final(self) == *old(self),
            r is None ==> old(self).arena.nodes@.len() == old(self).arena.capacity || old(self).root().visits >= VISIT_CAP,
            r is Some ==> final(self).root().visits == old(self).root().visits + 1,
            old(self).arena.nodes@.len() <= final(self).arena.nodes@.len() <= old(self).arena.nodes@.len() + 1,
            forall|i: int|
                0 <= i < old(self).arena.nodes@.len()
                    ==> (#[trigger] final(self).arena.nodes@[i]).visits >= old(self).arena.nodes@[i].visits,
            old(self).root().visits == 0 ==> r is Some,
            old(self).root().visits == 0 ==> final(self).arena.nodes@.len() == old(self).arena.nodes@.len(),
            (r is Some && old(self).no_terminal() && old(self).root().visits >= 1) ==> final(self).arena.nodes@.len() == old(self).arena.nodes@.len() + 1,
            (r is Some && old(self).root().visits >= 1 && (forall|i: int|
                0 <= i < old(self).arena.nodes@.len()
                    ==> (#[trigger] old(self).arena.nodes@[i]).pos.spec_terminal() is None))
                ==> final(self).arena.nodes@.len() == old(self).arena.nodes@.len() + 1,
            final(self).root().pos == old(self).root().pos,
            final(self).root().terminal is Some ==> (old(self).root().terminal is Some || old(self).root().pos.spec_terminal() is Some),
    {
        let ghost oldself = *old(self);
        if self.arena.nodes[0].visits >= VISIT_CAP {
            return None;
        }
        if self.arena.nodes[0].visits == 0 {
            self.expand_root();
            return Some(());
        }
        proof {
            assert forall|i: int| 0 <= i < self.arena.nodes@.len() implies node_stats_wf(
                self.arena.nodes@, i) && node_counts_ok(self.arena.nodes@, i) by {
                assert(node_wf(self.arena.nodes@, i));
            }
        }
        if self.arena.nodes[0].terminal.is_some() {
            let v: u64 = match &self.arena.nodes[0].terminal {
                Some(v) => *v,
                None => unreached(),
            };
            let mut path: Vec<usize> = Vec::new();
            path.push(0);
            proof {
                assert(node_wf(self.arena.nodes@, 0));
                assert(path@.len() == 1);
                assert(path@[0] == 0usize);
                assert(path_ok(self.arena.nodes@, path@));
                assert(self.arena.nodes@[0].edges is None);
            }
            self.backprop(&path, v);
            proof {
                assert(path@.contains(path@[0]));
                assert forall|i: int| 0 <= i < self.arena.nodes@.len() implies {
                    &&& (#[trigger] self.arena.nodes@[i]).edges == oldself.arena.nodes@[i].edges
                    &&& self.arena.nodes@[i].pos == oldself.arena.nodes@[i].pos
                    &&& self.arena.nodes@[i].terminal == oldself.arena.nodes@[i].terminal
                } by {
                    if path@.contains(i as usize) {
                        let t = choose|t: int| 0 <= t < path@.len() && path@[t] == i as usize;
                        assert(self.arena.nodes@[path@[t] as int].edges == oldself.arena.nodes@[
                            path@[t] as int].edges);
                    } else {
                        assert(self.arena.nodes@[i] == oldself.arena.nodes@[i]);
                    }
                }
                lemma_oracle_clauses_preserved(oldself, *self);
                lemma_select_rewf(oldself, *self);
            }
            return Some(());
        }
        proof {
            assert(self.root().edges is Some);
        }
        let (path, frontier) = self.descend();
        proof {
            assert forall|t: int| 0 <= t < path@.len()
                implies self.arena.nodes@[#[trigger] path@[t] as int].visits < VISIT_CAP by {
                lemma_path_visits_le_root(self.arena.nodes@, path@, t);
            }
        }
        match frontier {
            None => {
                self.advance_terminal(&path);
                proof {
                    let leaf = path@.last() as int;
                    assert(!oldself.no_terminal()) by {
                        assert(oldself.arena.nodes@[leaf].terminal is Some);
                    }
                }
                Some(())
            },
            Some(j) => {
                if self.arena.len() >= self.arena.capacity {
                    return None;
                }
                self.advance_frontier(&path, j);
                Some(())
            },
        }
    }

    /// Finishes a simulation that reached a terminal node: replays its
    /// cached outcome along the path.
    #[verifier::rlimit(100)]
    fn advance_terminal(&mut self, path: &Vec<usize>)
        requires
            old(self).wf(),
            path_ok(old(self).arena.nodes@, path@),
            old(self).arena.nodes@[path@.last() as int].terminal is Some,
            forall|t: int|
                0 <= t < path@.len()
                    ==> old(self).arena.nodes@[#[trigger] path@[t] as int].visits < VISIT_CAP,
        ensures
            final(self).wf(),
            final(self).settings == old(self).settings,
            final(self).root().visits == old(self).root().visits + 1,
            final(self).arena.nodes@.len() == old(self).arena.nodes@.len(),
            forall|i: int|
                0 <= i < old(self).arena.nodes@.len()
                    ==> (#[trigger] final(self).arena.nodes@[i]).visits >= old(
                    self,
                ).arena.nodes@[i].visits,
            final(self).root().pos == old(self).root().pos,
            final(self).root().terminal == old(self).root().terminal,
    {
        let ghost oldself = *old(self);
        let leaf: usize = path[path.len() - 1];
        let v: u64 = match &self.arena.nodes[leaf].terminal {
            Some(v) => *v,
            None => unreached(),
        };
        proof {
            assert forall|i: int| 0 <= i < self.arena.nodes@.len() implies node_stats_wf(
                self.arena.nodes@, i) && node_counts_ok(self.arena.nodes@, i) by {
                assert(node_wf(self.arena.nodes@, i));
            }
            assert(node_wf(self.arena.nodes@, leaf as int));
            assert(self.arena.nodes@[leaf as int].edges is None);
        }
        self.backprop(path, v);
        proof {
            assert(path@.contains(path@[0]));
            assert(oldself.root().visits >= 1) by {
                if oldself.root().visits == 0 {
                    assert(oldself.arena.nodes@.len() == 1);
                    assert(path@.last() == 0usize);
                    assert(oldself.root().terminal is None);
                }
            }
            assert forall|i: int| 0 <= i < self.arena.nodes@.len() implies {
                &&& (#[trigger] self.arena.nodes@[i]).edges == oldself.arena.nodes@[i].edges
                &&& self.arena.nodes@[i].pos == oldself.arena.nodes@[i].pos
                &&& self.arena.nodes@[i].terminal == oldself.arena.nodes@[i].terminal
            } by {
                if path@.contains(i as usize) {
                    let t = choose|t: int| 0 <= t < path@.len() && path@[t] == i as usize;
                    assert(self.arena.nodes@[path@[t] as int].edges == oldself.arena.nodes@[
                        path@[t] as int].edges);
                } else {
                    assert(self.arena.nodes@[i] == oldself.arena.nodes@[i]);
                }
            }
            lemma_oracle_clauses_preserved(oldself, *self);
            lemma_select_rewf(oldself, *self);
        }
    }

    /// Finishes a simulation that reached an unmaterialized edge:
    /// materializes and values the child, then propagates its value.
    #[verifier::rlimit(100)]
    fn advance_frontier(&mut self, path: &Vec<usize>, j: usize)
        requires
            old(self).wf(),
            path_ok(old(self).arena.nodes@, path@),
            old(self).arena.nodes@[path@.last() as int].edges is Some,
            (j as int) < old(self).arena.nodes@[path@.last() as int].edges->Some_0@.len(),
            old(self).arena.nodes@[path@.last() as int].edges->Some_0@[j as int].child is None,
            old(self).arena.nodes@.len() < old(self).arena.capacity,
            forall|t: int|
                0 <= t < path@.len()
                    ==> old(self).arena.nodes@[#[trigger] path@[t] as int].visits < VISIT_CAP,
        ensures
            final(self).wf(),
            final(self).settings == old(self).settings,
            final(self).root().visits == old(self).root().visits + 1,
            final(self).arena.nodes@.len() == old(self).arena.nodes@.len() + 1,
            forall|i: int|
                0 <= i < old(self).arena.nodes@.len()
                    ==> (#[trigger] final(self).arena.nodes@[i]).visits >= old(
                    self,
                ).arena.nodes@[i].visits,
            final(self).root().pos == old(self).root().pos,
            final(self).root().terminal == old(self).root().terminal,
    {
        let ghost oldself = *old(self);
        let parent: usize = path[path.len() - 1];
        let ghost before = self.arena.nodes@;
        let v_child: u64 = self.materialize(parent, j);
        proof {
            let after = self.arena.nodes@;
            lemma_frontier_bridge(before, after, path@, parent);
            assert(after[path@.last() as int].edges is Some);
        }
        let ghost midself = *self;
        self.backprop(&path, UNIT - v_child);
        proof {
            assert(oldself.root().visits >= 1) by {
                if oldself.root().visits == 0 {
                    assert(oldself.arena.nodes@.len() == 1);
                    assert(path@.last() == 0usize);
                    assert(oldself.arena.nodes@[0].edges is None);
                }
            }
            lemma_frontier_post(oldself, midself, *self, path@, parent, j as int);
        }
    }

    /// Walks from the root to the frontier: returns the visited index path
    /// and either the unmaterialized edge it stopped at (`Some`) or `None`
    /// when it reached a terminal node.
    #[verifier::rlimit(100)]
    fn descend(&self) -> (r: (Vec<usize>, Option<usize>))
        requires
            self.wf(),
            self.arena.nodes@[0].edges is Some,
        ensures
            path_ok(self.arena.nodes@, r.0@),
            match r.1 {
                None => self.arena.nodes@[r.0@.last() as int].terminal is Some,
                Some(j) => {
                    let li = r.0@.last() as int;
                    &&& self.arena.nodes@[li].edges is Some
                    &&& (j as int) < self.arena.nodes@[li].edges->Some_0@.len()
                    &&& self.arena.nodes@[li].edges->Some_0@[j as int].child is None
                },
            },
    {
        let mut path: Vec<usize> = Vec::new();
        path.push(0);
        let mut cur: usize = 0;
        loop
            invariant
                self.wf(),
                path_ok(self.arena.nodes@, path@),
                path@.last() == cur,
                (cur as int) < self.arena.nodes@.len(),
                self.arena.nodes@[cur as int].edges is Some,
            decreases self.arena.nodes@.len() - cur,
        {
            let j: usize = self.best_edge_index(cur);
            let es: &Vec<Edge> = match &self.arena.nodes[cur].edges {
                Some(es) => es,
                None => unreached(),
            };
            match es[j].child {
                None => {
                    return (path, Some(j));
                },
                Some(c) => {
                    proof {
                        assert(node_wf(self.arena.nodes@, cur as int));
                        assert(edge_wf(self.arena.nodes@, cur as int, es@[j as int]));
                        assert(points_to(self.arena.nodes@, cur as int, j as int, c));
                        assert(node_wf(self.arena.nodes@, c as int));
                    }
                    let ghost old_path = path@;
                    path.push(c);
                    proof {
                        lemma_path_push(self.arena.nodes@, old_path, cur, j as int, c);
                        assert(path@ == old_path.push(c));
                        assert(path@.last() == c);
                    }
                    if self.arena.nodes[c].terminal.is_some() {
                        return (path, None);
                    }
                    proof {
                        assert(c != 0);
                        assert(!(self.arena.nodes@[c as int].edges is None
                            && self.arena.nodes@[c as int].terminal is None));
                    }
                    cur = c;
                },
            }
        }
    }
}

} // verus!
