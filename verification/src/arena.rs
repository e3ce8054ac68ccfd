//! The arena: a preallocated, index-addressed pool of search-tree nodes.
//!
//! Nodes never reference each other except by dense `usize` index, and a
//! child's index is always strictly greater than its parent's (children are
//! allocated later), which is what makes the tree acyclic.  Allocation is
//! bump-style: it hands out fresh indices until the configured capacity is
//! reached and fails uniformly from then on.

use vstd::prelude::*;
use crate::fixed::{UNIT, VISIT_CAP, CAP_MAX, MAX_MOVES};
use crate::oracle::outcome_value;

verus! {

/// A candidate move out of a node: the move, its prior probability and the
/// index of the child node once it has been materialized.
pub struct Edge {
    /// The move identifier, as the game oracle chose it.
    pub mv: u64,
    /// The move's prior probability, fixed point in [0, UNIT].
    pub prior: u64,
    /// The child's arena index; `None` until the first traversal of this
    /// edge materializes the child.
    pub child: Option<usize>,
}

/// One visited position of the search tree.
pub struct Node<P> {
    /// The game position this node stands for.
    pub pos: P,
    /// How many simulations have passed through this node.
    pub visits: u64,
    /// Accumulated value, fixed point, from the perspective of the side to
    /// move at this node; each simulation adds a value in [0, UNIT].
    pub value_sum: u64,
    /// The cached outcome if the position is terminal.
    pub terminal: Option<u64>,
    /// One edge per legal move, in the oracle's order; `None` until the
    /// node is expanded.
    pub edges: Option<Vec<Edge>>,
}

/// The node pool.
pub struct Arena<P> {
    /// The live nodes; index 0 is the root.
    pub nodes: Vec<Node<P>>,
    /// The hard capacity this arena was built with.
    pub capacity: usize,
}

/// The visit count behind an edge: the child's count once materialized,
/// 0 before that.
pub open spec fn edge_visits<P>(nodes: Seq<Node<P>>, e: Edge) -> int {
    match e.child {
        Some(c) => {
            if c < nodes.len() {
                nodes[c as int].visits as int
            } else {
                0
            }
        },
        None => 0,
    }
}

/// The sum of the visit counts of a node's materialized children.
pub open spec fn child_visits_sum<P>(nodes: Seq<Node<P>>, es: Seq<Edge>) -> int
    decreases es.len(),
{
    if es.len() == 0 {
        0
    } else {
        child_visits_sum(nodes, es.drop_last()) + edge_visits(nodes, es.last())
    }
}

/// The move identifiers an edge list carries, in order.
pub open spec fn edge_mvs(es: Seq<Edge>) -> Seq<u64> {
    Seq::new(es.len(), |k: int| es[k].mv)
}

/// The sum of the priors of an edge list.
pub open spec fn edge_prior_sum(es: Seq<Edge>) -> int
    decreases es.len(),
{
    if es.len() == 0 {
        0
    } else {
        edge_prior_sum(es.drop_last()) + es.last().prior
    }
}

/// Edge `j` of node `p` points at child `c`.
pub open spec fn points_to<P>(nodes: Seq<Node<P>>, p: int, j: int, c: usize) -> bool {
    &&& 0 <= p < nodes.len()
    &&& nodes[p].edges is Some
    &&& 0 <= j < nodes[p].edges->Some_0@.len()
    &&& nodes[p].edges->Some_0@[j].child == Some(c)
}

/// Every materialized node is pointed at by at most one edge of one node:
/// the arena holds a tree, not a graph.
pub open spec fn unique_parents<P>(nodes: Seq<Node<P>>) -> bool {
    forall|p1: int, j1: int, p2: int, j2: int, c: usize|
        #[trigger] points_to(nodes, p1, j1, c) && #[trigger] points_to(nodes, p2, j2, c)
            ==> p1 == p2 && j1 == j2
}

/// One edge of node `i` in good standing: prior in range, child (if any)
/// a live, strictly later index.
pub open spec fn edge_wf<P>(nodes: Seq<Node<P>>, i: int, e: Edge) -> bool {
    &&& e.prior <= UNIT
    &&& (e.child matches Some(c) ==> i < c < nodes.len())
}

/// Node `i` in good standing, visit accounting aside.
///
/// An expanded node's priors sum to exactly `UNIT` (prior normalization).
/// A terminal node caches an outcome value and has no edges.  Only the
/// root (before the first simulation) may be neither expanded nor
/// terminal.
pub open spec fn node_stats_wf<P>(nodes: Seq<Node<P>>, i: int) -> bool {
    let n = nodes[i];
    &&& n.visits <= VISIT_CAP
    &&& n.value_sum <= n.visits * UNIT
    &&& (n.terminal matches Some(v) ==> outcome_value(v) && n.edges is None && n.visits >= 1)
    &&& (n.edges matches Some(es) ==> {
        &&& n.terminal is None
        &&& 1 <= es@.len() <= MAX_MOVES
        &&& edge_prior_sum(es@) == UNIT
        &&& (forall|j: int| 0 <= j < es@.len() ==> edge_wf(nodes, i, #[trigger] es@[j]))
    })
    &&& (i != 0 ==> n.visits >= 1 && !(n.edges is None && n.terminal is None))
}

/// Visit accounting at node `i`: an expanded node has been visited exactly
/// one time more than all of its materialized children together.
pub open spec fn node_counts_ok<P>(nodes: Seq<Node<P>>, i: int) -> bool {
    nodes[i].edges matches Some(es) ==> nodes[i].visits == 1 + child_visits_sum(nodes, es@)
}

/// Node `i` in good standing.
pub open spec fn node_wf<P>(nodes: Seq<Node<P>>, i: int) -> bool {
    node_stats_wf(nodes, i) && node_counts_ok(nodes, i)
}

/// The whole arena in good standing.
pub open spec fn arena_wf<P>(a: Arena<P>) -> bool {
    &&& 1 <= a.capacity <= CAP_MAX
    &&& 1 <= a.nodes@.len() <= a.capacity
    &&& (forall|i: int| 0 <= i < a.nodes@.len() ==> #[trigger] node_wf(a.nodes@, i))
    &&& unique_parents(a.nodes@)
}

impl<P> Arena<P> {
    /// A fresh arena holding only the given root node.
    pub fn new(root: Node<P>, capacity: usize) -> (a: Arena<P>)
        requires
            capacity >= 1,
        ensures
            a.nodes@.len() == 1,
            a.nodes@[0] == root,
            a.capacity == capacity,
    {
        let mut nodes: Vec<Node<P>> = Vec::new();
        nodes.push(root);
        Arena { nodes, capacity }
    }

    /// Bump allocation: a fresh index while capacity lasts, and a uniform
    /// failure - leaving the arena untouched - from then on.
    pub fn allocate(&mut self, node: Node<P>) -> (r: Option<usize>)
        ensures
            old(self).nodes@.len() < old(self).capacity ==> {
                &&& r == Some(old(self).nodes@.len() as usize)
                &&& final(self).nodes@ == old(self).nodes@.push(node)
            },
            old(self).nodes@.len() >= old(self).capacity ==> {
                &&& r is None
                &&& *final(self) == *old(self)
            },
            final(self).capacity == old(self).capacity,
    {
        if self.nodes.len() < self.capacity {
            let idx: usize = self.nodes.len();
            self.nodes.push(node);
            Some(idx)
        } else {
            None
        }
    }

    /// How many nodes are live.
    pub fn len(&self) -> (r: usize)
        ensures
            r == self.nodes@.len(),
    {
        self.nodes.len()
    }
}

/// Two arenas agree on every edge's child visits: their child sums agree.
pub proof fn lemma_sum_congruent<P>(nodes1: Seq<Node<P>>, nodes2: Seq<Node<P>>, es: Seq<Edge>)
    requires
        forall|j: int| 0 <= j < es.len()
            ==> edge_visits(nodes2, #[trigger] es[j]) == edge_visits(nodes1, es[j]),
    ensures
        child_visits_sum(nodes2, es) == child_visits_sum(nodes1, es),
    decreases es.len(),
{
    if es.len() > 0 {
        lemma_sum_congruent(nodes1, nodes2, es.drop_last());
    }
}

/// Bumping the visit count of one node, pointed at by exactly one edge of
/// the list, raises the child sum by exactly that amount.
pub proof fn lemma_sum_bump<P>(
    nodes1: Seq<Node<P>>,
    nodes2: Seq<Node<P>>,
    es: Seq<Edge>,
    j0: int,
    delta: int,
)
    requires
        0 <= j0 < es.len(),
        edge_visits(nodes2, es[j0]) == edge_visits(nodes1, es[j0]) + delta,
        forall|j: int| 0 <= j < es.len() && j != j0
            ==> edge_visits(nodes2, #[trigger] es[j]) == edge_visits(nodes1, es[j]),
    ensures
        child_visits_sum(nodes2, es) == child_visits_sum(nodes1, es) + delta,
    decreases es.len(),
{
    if j0 == es.len() - 1 {
        lemma_sum_congruent(nodes1, nodes2, es.drop_last());
    } else {
        lemma_sum_bump(nodes1, nodes2, es.drop_last(), j0, delta);
    }
}

/// An edge list with no materialized children sums to zero visits.
pub proof fn lemma_sum_no_children<P>(nodes: Seq<Node<P>>, es: Seq<Edge>)
    requires
        forall|j: int| 0 <= j < es.len() ==> (#[trigger] es[j]).child is None,
    ensures
        child_visits_sum(nodes, es) == 0,
    decreases es.len(),
{
    if es.len() > 0 {
        lemma_sum_no_children(nodes, es.drop_last());
    }
}

/// A child sum is never negative.
pub proof fn lemma_sum_nonneg<P>(nodes: Seq<Node<P>>, es: Seq<Edge>)
    ensures
        child_visits_sum(nodes, es) >= 0,
    decreases es.len(),
{
    if es.len() > 0 {
        lemma_sum_nonneg(nodes, es.drop_last());
    }
}

/// Each materialized child's visits are part of the child sum.
pub proof fn lemma_sum_ge_edge<P>(nodes: Seq<Node<P>>, es: Seq<Edge>, j: int)
    requires
        0 <= j < es.len(),
    ensures
        child_visits_sum(nodes, es) >= edge_visits(nodes, es[j]),
    decreases es.len(),
{
    if j == es.len() - 1 {
        lemma_sum_nonneg(nodes, es.drop_last());
    } else {
        lemma_sum_ge_edge(nodes, es.drop_last(), j);
        assert(edge_visits(nodes, es.last()) >= 0);
    }
}

/// Replacing one edge of the list changes the child sum by the difference
/// of that edge's visits.
pub proof fn lemma_sum_update_edge<P>(nodes: Seq<Node<P>>, es1: Seq<Edge>, es2: Seq<Edge>, j0: int)
    requires
        0 <= j0 < es1.len(),
        es2.len() == es1.len(),
        forall|j: int| 0 <= j < es1.len() && j != j0 ==> es2[j] == es1[j],
    ensures
        child_visits_sum(nodes, es2) == child_visits_sum(nodes, es1)
            + edge_visits(nodes, es2[j0]) - edge_visits(nodes, es1[j0]),
    decreases es1.len(),
{
    if j0 == es1.len() - 1 {
        assert(es2.drop_last() =~= es1.drop_last());
        lemma_sum_congruent(nodes, nodes, es1.drop_last());
    } else {
        assert(es2.drop_last().len() == es1.drop_last().len());
        lemma_sum_update_edge(nodes, es1.drop_last(), es2.drop_last(), j0);
        assert(es2.last() == es1.last());
    }
}

/// The edge-prior sum grows by one edge's prior at a time.
pub proof fn lemma_edge_prior_sum_push(es: Seq<Edge>, e: Edge)
    ensures
        edge_prior_sum(es.push(e)) == edge_prior_sum(es) + e.prior,
{
    assert(es.push(e).drop_last() =~= es);
}

/// Replacing an edge with one of equal prior leaves the prior sum alone.
pub proof fn lemma_edge_prior_sum_update(es1: Seq<Edge>, es2: Seq<Edge>, j0: int)
    requires
        0 <= j0 < es1.len(),
        es2.len() == es1.len(),
        es2[j0].prior == es1[j0].prior,
        forall|j: int| 0 <= j < es1.len() && j != j0 ==> es2[j] == es1[j],
    ensures
        edge_prior_sum(es2) == edge_prior_sum(es1),
    decreases es1.len(),
{
    if j0 == es1.len() - 1 {
        assert(es2.drop_last() =~= es1.drop_last());
    } else {
        lemma_edge_prior_sum_update(es1.drop_last(), es2.drop_last(), j0);
        assert(es2.last() == es1.last());
    }
}

} // verus!
