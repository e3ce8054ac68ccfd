//! Read-only queries over the frozen search statistics.
//!
//! These never panic and never change the tree, so they remain valid
//! after the arena reports exhaustion: the best move is the root edge
//! with the most visits (ties to the earliest edge), the top-`k` listing
//! orders edges by visit count, and the principal variation follows the
//! most-visited edge from the root while children exist.

use vstd::prelude::*;
use vstd::pervasive::unreached;
use vstd::arithmetic::mul::lemma_mul_inequality;
use vstd::arithmetic::div_mod::{lemma_div_is_ordered, lemma_div_by_multiple};
use crate::arena::{Edge, Node, node_wf, edge_wf, edge_visits};
use crate::fixed::{UNIT, HALF, VISIT_CAP, MAX_MOVES};
use crate::oracle::GamePosition;
use crate::tree::{MonteCarloTree, lemma_root_edge_move_legal};
use crate::oracle::move_ids;

verus! {

/// Assumed arena bytes per node, for the memory report.
pub const NODE_COST: u64 = 64;

/// Assumed arena bytes per edge, for the memory report.
pub const EDGE_COST: u64 = 24;

/// The mean value stored behind an edge, from the perspective of the side
/// to move at the child: the child's accumulated value over its visits,
/// or one half before the child exists.
pub open spec fn spec_edge_value<P>(nodes: Seq<Node<P>>, e: Edge) -> int {
    match e.child {
        Some(c) => {
            if c < nodes.len() && nodes[c as int].visits >= 1 {
                nodes[c as int].value_sum as int / nodes[c as int].visits as int
            } else {
                HALF as int
            }
        },
        None => HALF as int,
    }
}

/// Edge `b` is the first edge with the maximal visit count.
pub open spec fn is_first_visit_max<P>(nodes: Seq<Node<P>>, es: Seq<Edge>, b: int) -> bool {
    &&& 0 <= b < es.len()
    &&& (forall|j: int| 0 <= j < es.len() ==> edge_visits(nodes, #[trigger] es[j]) <= edge_visits(
        nodes,
        es[b],
    ))
    &&& (forall|j: int| 0 <= j < b ==> edge_visits(nodes, #[trigger] es[j]) < edge_visits(
        nodes,
        es[b],
    ))
}

/// Edge `a` comes strictly before edge `b` in the report order: more
/// visits, or equal visits and the earlier index.
pub open spec fn edge_before<P>(nodes: Seq<Node<P>>, es: Seq<Edge>, a: int, b: int) -> bool {
    ||| edge_visits(nodes, es[a]) > edge_visits(nodes, es[b])
    ||| (edge_visits(nodes, es[a]) == edge_visits(nodes, es[b]) && a < b)
}

/// One line of the top-`k` report: a root move with its statistics.
#[derive(Clone, Copy, Debug, PartialEq, Eq, Structural)]
pub struct MoveInfo {
    /// The move identifier.
    pub mv: u64,
    /// How many simulations chose this move at the root.
    pub visits: u64,
    /// Estimated probability, in [0, UNIT], that playing this move wins
    /// for the side to move at the root.
    pub winning_probability: u64,
    /// This move's share of the root's visits, in [0, UNIT].
    pub visit_share: u64,
}

/// The report line for one root edge.
pub open spec fn spec_info_of<P>(nodes: Seq<Node<P>>, root_visits: u64, e: Edge) -> MoveInfo {
    MoveInfo {
        mv: e.mv,
        visits: edge_visits(nodes, e) as u64,
        winning_probability: (UNIT - spec_edge_value(nodes, e)) as u64,
        visit_share: (edge_visits(nodes, e) * UNIT / (root_visits as int)) as u64,
    }
}

/// A valid top-`count` selection: `idxs` lists distinct root edges in
/// report order, every unlisted edge comes after the last listed one, and
/// `out` carries their report lines.
pub open spec fn selection_ok<P>(
    nodes: Seq<Node<P>>,
    root_visits: u64,
    es: Seq<Edge>,
    count: int,
    idxs: Seq<int>,
    out: Seq<MoveInfo>,
) -> bool {
    &&& out.len() == idxs.len()
    &&& idxs.len() == (if count < es.len() {
        count
    } else {
        es.len() as int
    })
    &&& (forall|t: int| 0 <= t < idxs.len() ==> 0 <= #[trigger] idxs[t] < es.len())
    &&& (forall|t1: int, t2: int|
        0 <= t1 < t2 < idxs.len() ==> edge_before(nodes, es, #[trigger] idxs[t1],
        #[trigger] idxs[t2]))
    &&& (forall|j: int|
        0 <= j < es.len() && !idxs.contains(j) && idxs.len() >= 1 ==> edge_before(
            nodes,
            es,
            idxs[idxs.len() - 1],
            j,
        ))
    &&& (forall|t: int|
        0 <= t < idxs.len() ==> #[trigger] out[t] == spec_info_of(nodes, root_visits, es[idxs[t]]))
}

impl<P: GamePosition> MonteCarloTree<P> {
    /// The index of the first edge of node `i` with the maximal visit
    /// count.
    fn best_visit_index(&self, i: usize) -> (b: usize)
        requires
            self.wf(),
            (i as int) < self.arena.nodes@.len(),
            self.arena.nodes@[i as int].edges is Some,
        ensures
            is_first_visit_max(
                self.arena.nodes@,
                self.arena.nodes@[i as int].edges->Some_0@,
                b as int,
            ),
    {
        let es: &Vec<Edge> = match &self.arena.nodes[i].edges {
            Some(es) => es,
            None => unreached(),
        };
        proof {
            assert(node_wf(self.arena.nodes@, i as int));
            assert(edge_wf(self.arena.nodes@, i as int, es@[0]));
        }
        let mut best: usize = 0;
        let mut best_v: u64 = edge_visit_count(&self.arena.nodes, &es[0]);
        let mut j: usize = 1;
        while j < es.len()
            invariant
                self.wf(),
                (i as int) < self.arena.nodes@.len(),
                self.arena.nodes@[i as int].edges is Some,
                es == self.arena.nodes@[i as int].edges->Some_0,
                1 <= j <= es@.len(),
                (best as int) < j,
                best_v == edge_visits(self.arena.nodes@, es@[best as int]),
                forall|t: int| 0 <= t < j ==> edge_visits(self.arena.nodes@, #[trigger] es@[t])
                    <= best_v,
                forall|t: int| 0 <= t < best ==> edge_visits(self.arena.nodes@, #[trigger] es@[t])
                    < best_v,
            decreases es@.len() - j,
        {
            proof {
                assert(node_wf(self.arena.nodes@, i as int));
                assert(edge_wf(self.arena.nodes@, i as int, es@[j as int]));
            }
            let v: u64 = edge_visit_count(&self.arena.nodes, &es[j]);
            if v > best_v {
                best = j;
                best_v = v;
            }
            j = j + 1;
        }
        best
    }

    /// The best move: the root edge with the highest visit count (ties to
    /// the earliest edge), together with the mean value stored behind it -
    /// the win probability of the opponent, who moves next.
    pub fn best_move(&self) -> (r: (u64, u64))
        requires
            self.wf(),
            self.root().edges is Some,
        ensures
            ({
                let es = self.root().edges->Some_0@;
                exists|b: int|
                    {
                        &&& #[trigger] is_first_visit_max(self.arena.nodes@, es, b)
                        &&& r.0 == es[b].mv
                        &&& r.1 == spec_edge_value(self.arena.nodes@, es[b])
                    }
            }),
            !self.all_root_moves_excluded() ==> !self.settings.exclude_moves@.contains(r.0),
            move_ids(self.root().pos.spec_moves()).contains(r.0),
    {
        let b: usize = self.best_visit_index(0);
        let es: &Vec<Edge> = match &self.arena.nodes[0].edges {
            Some(es) => es,
            None => unreached(),
        };
        proof {
            assert(node_wf(self.arena.nodes@, 0));
            assert(edge_wf(self.arena.nodes@, 0, es@[b as int]));
            if es@[b as int].child is Some {
                let c = es@[b as int].child->0;
                assert(node_wf(self.arena.nodes@, c as int));
            }
        }
        let value: u64 = edge_mean_value(&self.arena.nodes, &es[b]);
        proof {
            assert(is_first_visit_max(self.arena.nodes@, es@, b as int));
            lemma_root_edge_move_legal(*self, b as int);
        }
        (es[b].mv, value)
    }

    /// The top-`count` root moves by visit count, in report order (visits
    /// descending, earlier edges first on ties), each with its estimated
    /// win probability and visit share.
    #[verifier::rlimit(100)]
    pub fn best_children_info(&self, count: usize) -> (r: Vec<MoveInfo>)
        requires
            self.wf(),
            self.root().edges is Some,
            self.root().visits >= 1,
        ensures
            exists|idxs: Seq<int>|
                #[trigger] selection_ok(
                    self.arena.nodes@,
                    self.root().visits,
                    self.root().edges->Some_0@,
                    count as int,
                    idxs,
                    r@,
                ),
            !self.all_root_moves_excluded() ==> forall|t: int|
                0 <= t < r@.len() ==> !self.settings.exclude_moves@.contains(
                    (#[trigger] r@[t]).mv,
                ),
            forall|t: int|
                0 <= t < r@.len() ==> move_ids(self.root().pos.spec_moves()).contains(
                    (#[trigger] r@[t]).mv,
                ),
            forall|t1: int, t2: int|
                #![trigger r@[t1], r@[t2]]
                0 <= t1 < t2 < r@.len() ==> r@[t1].mv != r@[t2].mv,
            forall|t: int|
                0 <= t < r@.len() - 1 ==> (#[trigger] r@[t]).visits >= r@[t + 1].visits,
    {
        let es: &Vec<Edge> = match &self.arena.nodes[0].edges {
            Some(es) => es,
            None => unreached(),
        };
        proof {
            assert(node_wf(self.arena.nodes@, 0));
        }
        let root_visits: u64 = self.arena.nodes[0].visits;
        let n: usize = es.len();
        let limit: usize = if count < n {
            count
        } else {
            n
        };
        let mut used: Vec<bool> = Vec::new();
        let mut z: usize = 0;
        while z < n
            invariant
                used@.len() == z,
                z <= n,
                forall|t: int| 0 <= t < z ==> !(#[trigger] used@[t]),
            decreases n - z,
        {
            used.push(false);
            z = z + 1;
        }
        let mut out: Vec<MoveInfo> = Vec::new();
        let ghost mut idxs: Seq<int> = Seq::empty();
        let mut t: usize = 0;
        while t < limit
            invariant
                self.wf(),
                self.root().edges is Some,
                es == self.root().edges->Some_0,
                root_visits == self.root().visits,
                root_visits >= 1,
                n == es@.len(),
                limit <= n,
                limit == (if (count as int) < es@.len() {
                    count as int
                } else {
                    es@.len() as int
                }),
                used@.len() == n,
                t <= limit,
                out@.len() == t,
                idxs.len() == t,
                forall|s: int| 0 <= s < t ==> 0 <= #[trigger] idxs[s] < n,
                forall|j: int| 0 <= j < n ==> ((#[trigger] used@[j]) <==> idxs.contains(j)),
                forall|s1: int, s2: int|
                    0 <= s1 < s2 < t ==> edge_before(self.arena.nodes@, es@, #[trigger] idxs[s1],
                    #[trigger] idxs[s2]),
                forall|j: int|
                    0 <= j < n && !(#[trigger] used@[j]) && t >= 1 ==> edge_before(
                        self.arena.nodes@,
                        es@,
                        idxs[t - 1],
                        j,
                    ),
                forall|s: int|
                    0 <= s < t ==> #[trigger] out@[s] == spec_info_of(
                        self.arena.nodes@,
                        root_visits,
                        es@[idxs[s]],
                    ),
            decreases limit - t,
        {
            // The first unused edge with the maximal visit count.
            let mut best: usize = n;
            let mut best_v: u64 = 0;
            let mut j: usize = 0;
            while j < n
                invariant
                    self.wf(),
                    self.root().edges is Some,
                    es == self.root().edges->Some_0,
                    n == es@.len(),
                    used@.len() == n,
                    j <= n,
                    best == n || ((best as int) < j && !used@[best as int] && best_v
                        == edge_visits(self.arena.nodes@, es@[best as int])),
                    best == n ==> forall|q: int| 0 <= q < j ==> #[trigger] used@[q],
                    forall|q: int|
                        0 <= q < j && !(#[trigger] used@[q]) ==> edge_visits(
                            self.arena.nodes@,
                            es@[q],
                        ) <= best_v,
                    best != n ==> (forall|q: int|
                        0 <= q < best ==> (#[trigger] used@[q]) || edge_visits(
                            self.arena.nodes@,
                            es@[q],
                        ) < best_v),
                decreases n - j,
            {
                proof {
                    assert(node_wf(self.arena.nodes@, 0));
                    assert(edge_wf(self.arena.nodes@, 0, es@[j as int]));
                }
                if !used[j] {
                    let v: u64 = edge_visit_count(&self.arena.nodes, &es[j]);
                    if best == n || v > best_v {
                        best = j;
                        best_v = v;
                    }
                }
                j = j + 1;
            }
            proof {
                if best == n {
                    assert(idxs.len() < n);
                    assert forall|s1: int, s2: int|
                        0 <= s1 < s2 < idxs.len() implies #[trigger] idxs[s1]
                        != #[trigger] idxs[s2] by {
                        assert(edge_before(self.arena.nodes@, es@, idxs[s1], idxs[s2]));
                    }
                    lemma_unused_exists(used@, idxs);
                    assert(false);
                }
                assert(node_wf(self.arena.nodes@, 0));
                assert(edge_wf(self.arena.nodes@, 0, es@[best as int]));
                if es@[best as int].child is Some {
                    let c = es@[best as int].child->0;
                    assert(node_wf(self.arena.nodes@, c as int));
                }
            }
            let info: MoveInfo = make_info(&self.arena.nodes, &es[best], root_visits);
            let ghost pre_used = used@;
            let ghost pre_idxs = idxs;
            let ghost pre_t = t as int;
            used[best] = true;
            out.push(info);
            proof {
                idxs = idxs.push(best as int);
            }
            t = t + 1;
            proof {
                let nodes = self.arena.nodes@;
                assert(idxs.drop_last() =~= pre_idxs);
                assert(idxs[pre_t] == best as int);
                // Membership bookkeeping.
                assert forall|j2: int|
                    0 <= j2 < n implies ((#[trigger] used@[j2]) <==> idxs.contains(j2)) by {
                    if j2 == best as int {
                        assert(idxs.contains(best as int));
                    } else {
                        assert(used@[j2] == pre_used[j2]);
                        if idxs.contains(j2) {
                            let w = choose|w: int| 0 <= w < idxs.len() && idxs[w] == j2;
                            assert(w < pre_t);
                            assert(pre_idxs[w] == j2);
                            assert(pre_idxs.contains(j2));
                        } else if pre_idxs.contains(j2) {
                            let w = choose|w: int|
                                0 <= w < pre_idxs.len() && pre_idxs[w] == j2;
                            assert(idxs[w] == j2);
                            assert(idxs.contains(j2));
                        }
                    }
                }
                // The fresh pick comes after everything already picked, and
                // before everything still unpicked.
                assert forall|q: int|
                    0 <= q < n && !(#[trigger] used@[q]) implies edge_before(nodes, es@, best
                    as int, q) by {
                    assert(!pre_used[q]);
                    assert(q != best as int);
                    assert(edge_visits(nodes, es@[q]) <= best_v);
                    if edge_visits(nodes, es@[q]) == edge_visits(nodes, es@[best as int]) {
                        assert(!(q < best));
                    }
                }
                assert forall|s1: int, s2: int|
                    0 <= s1 < s2 < t implies edge_before(nodes, es@, #[trigger] idxs[s1],
                    #[trigger] idxs[s2]) by {
                    if s2 < pre_t {
                        assert(idxs[s1] == pre_idxs[s1]);
                        assert(idxs[s2] == pre_idxs[s2]);
                    } else {
                        assert(idxs[s2] == best as int);
                        assert(!pre_used[best as int]);
                        if s1 == pre_t - 1 {
                            assert(edge_before(nodes, es@, pre_idxs[pre_t - 1], best as int));
                        } else {
                            assert(edge_before(nodes, es@, pre_idxs[s1], pre_idxs[pre_t - 1]));
                            assert(edge_before(nodes, es@, pre_idxs[pre_t - 1], best as int));
                        }
                    }
                }
            }
        }
        proof {
            assert forall|j2: int|
                0 <= j2 < es@.len() && !idxs.contains(j2) && idxs.len() >= 1
                implies edge_before(self.arena.nodes@, es@, idxs[idxs.len() - 1], j2) by {
                assert(!used@[j2]);
            }
            assert(selection_ok(
                self.arena.nodes@,
                root_visits,
                es@,
                count as int,
                idxs,
                out@,
            ));
            if !self.all_root_moves_excluded() {
                assert forall|s: int| 0 <= s < out@.len()
                    implies !self.settings.exclude_moves@.contains((#[trigger] out@[s]).mv) by {
                    assert(out@[s] == spec_info_of(self.arena.nodes@, root_visits, es@[idxs[s]]));
                    assert(!self.settings.exclude_moves@.contains(es@[idxs[s]].mv));
                }
            }
            assert forall|s: int| 0 <= s < out@.len()
                implies move_ids(self.root().pos.spec_moves()).contains(
                (#[trigger] out@[s]).mv) by {
                assert(out@[s] == spec_info_of(self.arena.nodes@, root_visits, es@[idxs[s]]));
                lemma_root_edge_move_legal(*self, idxs[s]);
            }
            assert forall|s: int| 0 <= s < out@.len() - 1
                implies (#[trigger] out@[s]).visits >= out@[s + 1].visits by {
                assert(out@[s] == spec_info_of(self.arena.nodes@, root_visits, es@[idxs[s]]));
                assert(out@[s + 1] == spec_info_of(self.arena.nodes@, root_visits,
                    es@[idxs[s + 1]]));
                assert(edge_before(self.arena.nodes@, es@, idxs[s], idxs[s + 1]));
                lemma_edge_visits_bounds(self.arena.nodes@, es@, idxs[s]);
                lemma_edge_visits_bounds(self.arena.nodes@, es@, idxs[s + 1]);
            }
            assert forall|s1: int, s2: int|
                #![trigger out@[s1], out@[s2]]
                0 <= s1 < s2 < out@.len() implies out@[s1].mv != out@[s2].mv by {
                assert(out@[s1] == spec_info_of(self.arena.nodes@, root_visits, es@[idxs[s1]]));
                assert(out@[s2] == spec_info_of(self.arena.nodes@, root_visits, es@[idxs[s2]]));
                assert(edge_before(self.arena.nodes@, es@, idxs[s1], idxs[s2]));
                assert(self.node_edges_distinct(0));
                if idxs[s1] < idxs[s2] {
                    assert(es@[idxs[s1]].mv != es@[idxs[s2]].mv);
                } else {
                    assert(idxs[s2] < idxs[s1]);
                    assert(es@[idxs[s2]].mv != es@[idxs[s1]].mv);
                }
            }
        }
        out
    }

    /// How many bytes of arena memory the live nodes and edges stand for.
    pub fn mem_usage(&self) -> (r: u64)
        requires
            self.wf(),
        ensures
            r == NODE_COST * self.arena.nodes@.len() + EDGE_COST * total_edges(
                self.arena.nodes@,
                self.arena.nodes@.len() as int,
            ),
    {
        let n: usize = self.arena.len();
        let mut edges: u64 = 0;
        let mut i: usize = 0;
        while i < n
            invariant
                self.wf(),
                n == self.arena.nodes@.len(),
                i <= n,
                edges == total_edges(self.arena.nodes@, i as int),
                edges <= (i as int) * (MAX_MOVES as int),
            decreases n - i,
        {
            proof {
                assert(node_wf(self.arena.nodes@, i as int));
                assert((i as int) * (MAX_MOVES as int) + MAX_MOVES == ((i + 1) as int) * (
                MAX_MOVES as int)) by (nonlinear_arith);
                lemma_mul_inequality((i + 1) as int, crate::fixed::CAP_MAX as int,
                    MAX_MOVES as int);
            }
            match &self.arena.nodes[i].edges {
                Some(es) => {
                    edges = edges + es.len() as u64;
                },
                None => {},
            }
            i = i + 1;
        }
        proof {
            lemma_mul_inequality(n as int, crate::fixed::CAP_MAX as int, MAX_MOVES as int);
        }
        NODE_COST * (n as u64) + EDGE_COST * edges
    }

    /// The principal variation: the line obtained by following the
    /// most-visited edge from the root until a child is missing or the
    /// position is terminal.  Recomputed from the current statistics on
    /// every call.
    pub fn pv(&self) -> (r: Vec<u64>)
        requires
            self.wf(),
        ensures
            r@ == spec_pv(self.arena.nodes@, 0),
            (!self.all_root_moves_excluded() && r@.len() >= 1)
                ==> !self.settings.exclude_moves@.contains(r@[0]),
            r@.len() >= 1 ==> move_ids(self.root().pos.spec_moves()).contains(r@[0]),
    {
        let mut out: Vec<u64> = Vec::new();
        let mut cur: usize = 0;
        loop
            invariant
                self.wf(),
                (cur as int) < self.arena.nodes@.len(),
                spec_pv(self.arena.nodes@, 0) =~= out@ + spec_pv(self.arena.nodes@, cur as int),
                (!self.all_root_moves_excluded() && out@.len() >= 1)
                    ==> !self.settings.exclude_moves@.contains(out@[0]),
                out@.len() >= 1 ==> move_ids(self.root().pos.spec_moves()).contains(out@[0]),
                out@.len() >= 1 || cur == 0,
            decreases self.arena.nodes@.len() - cur,
        {
            let expanded: bool = match &self.arena.nodes[cur].edges {
                Some(_) => true,
                None => false,
            };
            if !expanded {
                proof {
                    assert(spec_pv(self.arena.nodes@, cur as int) =~= Seq::<u64>::empty());
                    assert(out@ + Seq::<u64>::empty() =~= out@);
                }
                return out;
            }
            let b: usize = self.best_visit_index(cur);
            let es: &Vec<Edge> = match &self.arena.nodes[cur].edges {
                Some(es) => es,
                None => unreached(),
            };
            proof {
                let bs = first_visit_max_idx(self.arena.nodes@, es@);
                assert(is_first_visit_max(self.arena.nodes@, es@, bs));
                lemma_first_max_unique(self.arena.nodes@, es@, b as int, bs);
                assert(node_wf(self.arena.nodes@, cur as int));
                assert(edge_wf(self.arena.nodes@, cur as int, es@[b as int]));
                if cur == 0 && !self.all_root_moves_excluded() {
                    assert(!self.settings.exclude_moves@.contains(es@[b as int].mv));
                }
                if cur == 0 {
                    lemma_root_edge_move_legal(*self, b as int);
                }
            }
            let ghost pre_out = out@;
            out.push(es[b].mv);
            match es[b].child {
                Some(c) => {
                    proof {
                        assert(spec_pv(self.arena.nodes@, cur as int) =~= seq![es@[b as int].mv]
                            + spec_pv(self.arena.nodes@, c as int));
                        assert(pre_out + spec_pv(self.arena.nodes@, cur as int) =~= out@
                            + spec_pv(self.arena.nodes@, c as int));
                    }
                    cur = c;
                },
                None => {
                    proof {
                        assert(spec_pv(self.arena.nodes@, cur as int) =~= seq![
                            es@[b as int].mv
                        ]);
                        assert(pre_out + spec_pv(self.arena.nodes@, cur as int) =~= out@);
                    }
                    return out;
                },
            }
        }
    }
}

/// The first edge with maximal visits, as a function of the edge list
/// (meaningful whenever such an edge exists, which `lemma_first_max_unique`
/// shows is then unique).
pub open spec fn first_visit_max_idx<P>(nodes: Seq<Node<P>>, es: Seq<Edge>) -> int {
    choose|b: int| #[trigger] is_first_visit_max(nodes, es, b)
}

/// At most one edge is the first visit maximum.
pub proof fn lemma_first_max_unique<P>(nodes: Seq<Node<P>>, es: Seq<Edge>, b1: int, b2: int)
    requires
        is_first_visit_max(nodes, es, b1),
        is_first_visit_max(nodes, es, b2),
    ensures
        b1 == b2,
{
    if b1 < b2 {
        assert(edge_visits(nodes, es[b1]) < edge_visits(nodes, es[b2]));
        assert(edge_visits(nodes, es[b2]) <= edge_visits(nodes, es[b1]));
    } else if b2 < b1 {
        assert(edge_visits(nodes, es[b2]) < edge_visits(nodes, es[b1]));
        assert(edge_visits(nodes, es[b1]) <= edge_visits(nodes, es[b2]));
    }
}

/// The principal variation from node `i`: follow the most-visited edge
/// (ties to the earliest) while children have been materialized.
pub open spec fn spec_pv<P>(nodes: Seq<Node<P>>, i: int) -> Seq<u64>
    decreases nodes.len() - i,
{
    if 0 <= i < nodes.len() && nodes[i].edges is Some {
        let es = nodes[i].edges->Some_0@;
        let b = first_visit_max_idx(nodes, es);
        if 0 <= b < es.len() {
            match es[b].child {
                Some(c) => {
                    if i < c < nodes.len() {
                        seq![es[b].mv] + spec_pv(nodes, c as int)
                    } else {
                        seq![es[b].mv]
                    }
                },
                None => seq![es[b].mv],
            }
        } else {
            Seq::empty()
        }
    } else {
        Seq::empty()
    }
}

/// An edge's visit count is a `u64`-sized, non-negative number.
proof fn lemma_edge_visits_bounds<P>(nodes: Seq<Node<P>>, es: Seq<Edge>, t: int)
    requires
        0 <= t < es.len(),
    ensures
        0 <= edge_visits(nodes, es[t]) <= u64::MAX,
{
}

/// The number of edges held by the first `k` nodes.
pub open spec fn total_edges<P>(nodes: Seq<Node<P>>, k: int) -> int
    decreases k,
{
    if k <= 0 {
        0
    } else {
        total_edges(nodes, k - 1) + (match nodes[k - 1].edges {
            Some(es) => es@.len() as int,
            None => 0,
        })
    }
}

/// In a vector with fewer marks than slots, some slot is unmarked.
proof fn lemma_unused_exists(used: Seq<bool>, idxs: Seq<int>)
    requires
        forall|j: int| 0 <= j < used.len() ==> ((#[trigger] used[j]) <==> idxs.contains(j)),
        forall|s1: int, s2: int| 0 <= s1 < s2 < idxs.len() ==> #[trigger] idxs[s1] != #[trigger] idxs[s2],
        forall|s: int| 0 <= s < idxs.len() ==> 0 <= #[trigger] idxs[s] < used.len(),
        idxs.len() < used.len(),
    ensures
        exists|j: int| 0 <= j < used.len() && !(#[trigger] used[j]),
{
    broadcast use vstd::seq_lib::seq_to_set_is_finite;
    broadcast use vstd::set::group_set_axioms;

    assert(idxs.no_duplicates());
    let full = Seq::<int>::new(used.len(), |x: int| x);
    assert(full.no_duplicates());
    if forall|j: int| 0 <= j < used.len() ==> #[trigger] used[j] {
        assert forall|x: int| full.to_set().contains(x) implies idxs.to_set().contains(x) by {
            assert(full.contains(x));
            let w = choose|w: int| 0 <= w < full.len() && full[w] == x;
            assert(0 <= x < used.len());
            assert(used[x]);
            assert(idxs.contains(x));
        }
        idxs.unique_seq_to_set();
        full.unique_seq_to_set();
        vstd::set_lib::lemma_len_subset(full.to_set(), idxs.to_set());
        assert(false);
    }
}

/// The visit count behind one edge.
fn edge_visit_count<P: GamePosition>(nodes: &Vec<Node<P>>, e: &Edge) -> (v: u64)
    requires
        e.child matches Some(c) ==> (c as int) < nodes@.len(),
    ensures
        v == edge_visits(nodes@, *e),
{
    match e.child {
        None => 0,
        Some(c) => nodes[c].visits,
    }
}

/// The mean value stored behind one edge.
fn edge_mean_value<P: GamePosition>(nodes: &Vec<Node<P>>, e: &Edge) -> (v: u64)
    requires
        e.child matches Some(c) ==> (c as int) < nodes@.len()
            && nodes@[c as int].value_sum <= nodes@[c as int].visits * UNIT,
    ensures
        v == spec_edge_value(nodes@, *e),
        v <= UNIT,
{
    match e.child {
        None => HALF,
        Some(c) => {
            let visits: u64 = nodes[c].visits;
            if visits == 0 {
                HALF
            } else {
                proof {
                    lemma_div_is_ordered(nodes@[c as int].value_sum as int,
                        (visits * UNIT) as int, visits as int);
                    lemma_div_by_multiple(UNIT as int, visits as int);
                    assert((UNIT as int) * (visits as int) == (visits as int) * (UNIT as int))
                        by (nonlinear_arith);
                }
                nodes[c].value_sum / visits
            }
        },
    }
}

/// One report line, with its arithmetic bounds discharged.
fn make_info<P: GamePosition>(nodes: &Vec<Node<P>>, e: &Edge, root_visits: u64) -> (r: MoveInfo)
    requires
        root_visits >= 1,
        e.child matches Some(c) ==> (c as int) < nodes@.len()
            && nodes@[c as int].value_sum <= nodes@[c as int].visits * UNIT
            && nodes@[c as int].visits <= VISIT_CAP,
    ensures
        r == spec_info_of(nodes@, root_visits, *e),
{
    let visits: u64 = edge_visit_count(nodes, e);
    let mean: u64 = edge_mean_value(nodes, e);
    proof {
        lemma_mul_inequality(visits as int, VISIT_CAP as int, UNIT as int);
    }
    let share: u64 = visits * UNIT / root_visits;
    MoveInfo { mv: e.mv, visits, winning_probability: UNIT - mean, visit_share: share }
}

} // verus!
