//! The search tree: an arena of nodes, a root position and the settings
//! the search was configured with.
//!
//! A tree is created per search request.  The root node is allocated at
//! construction but expanded lazily, by the first simulation.

use vstd::prelude::*;
use crate::arena::{Arena, Node, arena_wf, node_wf, edge_mvs};
use crate::expand::allowed_moves;
use crate::oracle::move_ids;
use crate::fixed::CAP_MAX;
use crate::oracle::GamePosition;
use crate::rng::{SearchRng, rng_wf, spec_seeded};
use crate::settings::{ConfigError, MctsSetting, settings_ok};
use crate::fixed::{UNIT, EXPLORATION_MAX};
use crate::settings::GREED_MAX;

verus! {

/// The Monte Carlo search tree.
pub struct MonteCarloTree<P: GamePosition> {
    /// The node pool; index 0 is the root.
    pub arena: Arena<P>,
    /// The immutable configuration of this search.
    pub settings: MctsSetting,
    /// The search's explicit random source.
    pub rng: SearchRng,
}

impl<P: GamePosition> MonteCarloTree<P> {
    /// The root node.
    pub open spec fn root(&self) -> Node<P> {
        self.arena.nodes@[0]
    }

    /// The exclusion set rules out every legal root move; in that
    /// degenerate case the set is ignored, so that the search still has a
    /// move to offer.
    pub open spec fn all_root_moves_excluded(&self) -> bool {
        forall|i: int| 0 <= i < self.root().pos.spec_moves().len()
            ==> self.settings.exclude_moves@.contains(
                (#[trigger] self.root().pos.spec_moves()[i]).0,
            )
    }

    /// Once the root is expanded, no excluded move is among its edges
    /// (unless the exclusion set ruled out every legal move and was
    /// therefore ignored).
    pub open spec fn exclusion_respected(&self) -> bool {
        self.root().edges matches Some(es) ==> !self.all_root_moves_excluded()
            ==> forall|j: int| 0 <= j < es@.len()
                ==> !self.settings.exclude_moves@.contains((#[trigger] es@[j]).mv)
    }

    /// The edges of node `i` carry exactly the legal moves of its
    /// position, one edge per legal move in the oracle's order; at the
    /// root the excluded moves are dropped first, unless that would leave
    /// nothing (the exclusion set is then ignored).
    pub open spec fn node_edges_legal(&self, i: int) -> bool {
        self.arena.nodes@[i].edges matches Some(es) ==> {
            let legal = move_ids(self.arena.nodes@[i].pos.spec_moves());
            let kept = move_ids(
                allowed_moves(
                    self.arena.nodes@[0].pos.spec_moves(),
                    self.settings.exclude_moves@,
                ),
            );
            if i == 0 {
                edge_mvs(es@) == (if kept.len() == 0 {
                    legal
                } else {
                    kept
                })
            } else {
                edge_mvs(es@) == legal
            }
        }
    }

    /// No move stands on two edges of node `i`.
    pub open spec fn node_edges_distinct(&self, i: int) -> bool {
        self.arena.nodes@[i].edges matches Some(es) ==> forall|t1: int, t2: int|
            #![trigger es@[t1], es@[t2]]
            0 <= t1 < t2 < es@.len() ==> es@[t1].mv != es@[t2].mv
    }

    /// Every expanded node reports only legal moves.
    pub open spec fn edges_legal(&self) -> bool {
        forall|i: int|
            0 <= i < self.arena.nodes@.len() ==> #[trigger] self.node_edges_legal(i)
    }

    /// No node reports the same move twice.
    pub open spec fn edges_distinct(&self) -> bool {
        forall|i: int|
            0 <= i < self.arena.nodes@.len() ==> #[trigger] self.node_edges_distinct(i)
    }

    /// Once the first simulation has run, every node's cached terminal
    /// flag is exactly what the oracle says of its position.
    pub open spec fn terminals_match(&self) -> bool {
        self.root().visits >= 1 ==> forall|i: int|
            0 <= i < self.arena.nodes@.len()
                ==> (#[trigger] self.arena.nodes@[i]).terminal
                == self.arena.nodes@[i].pos.spec_terminal()
    }

    /// The tree in good standing: a well-formed arena whose capacity is the
    /// configured one, a live random source, a root that is unexpanded only
    /// while the tree is untouched, edges that mirror the oracle's legal
    /// moves, terminal flags that mirror its outcomes, and the exclusion
    /// set respected.
    pub open spec fn wf(&self) -> bool {
        &&& arena_wf(self.arena)
        &&& settings_ok(self.settings)
        &&& self.arena.capacity == self.settings.arena_capacity
        &&& rng_wf(self.rng)
        &&& (self.root().visits == 0 ==> self.arena.nodes@.len() == 1
            && self.root().edges is None && self.root().terminal is None
            && self.root().value_sum == 0)
        &&& (self.root().visits >= 1 ==> !(self.root().edges is None
            && self.root().terminal is None))
        &&& self.exclusion_respected()
        &&& self.edges_legal()
        &&& self.edges_distinct()
        &&& self.terminals_match()
    }

    /// No node of the tree is terminal.
    pub open spec fn no_terminal(&self) -> bool {
        forall|i: int| 0 <= i < self.arena.nodes@.len()
            ==> (#[trigger] self.arena.nodes@[i]).terminal is None
    }

    /// Builds a tree over `position`.  The root node is allocated, the
    /// position stored, and nothing expanded yet; an invalid configuration
    /// is rejected, never corrected.
    pub fn with_settings(position: P, settings: MctsSetting) -> (r: Result<
        MonteCarloTree<P>,
        ConfigError,
    >)
        ensures
            r is Ok <==> settings_ok(settings),
            r == Result::<MonteCarloTree<P>, ConfigError>::Err(ConfigError::ZeroCapacity)
                <==> settings.arena_capacity == 0,
            r == Result::<MonteCarloTree<P>, ConfigError>::Err(ConfigError::CapacityTooLarge)
                <==> settings.arena_capacity > CAP_MAX,
            r == Result::<MonteCarloTree<P>, ConfigError>::Err(ConfigError::ExplorationTooLarge)
                <==> (1 <= settings.arena_capacity <= CAP_MAX
                    && settings.exploration > EXPLORATION_MAX),
            r == Result::<MonteCarloTree<P>, ConfigError>::Err(ConfigError::NoiseTooLarge) <==> (1
                <= settings.arena_capacity <= CAP_MAX && settings.exploration <= EXPLORATION_MAX
                && (settings.noise_weight matches Some(w) && w > UNIT)),
            r == Result::<MonteCarloTree<P>, ConfigError>::Err(ConfigError::GreedTooLarge) <==> (1
                <= settings.arena_capacity <= CAP_MAX && settings.exploration <= EXPLORATION_MAX
                && (settings.noise_weight matches Some(w) ==> w <= UNIT)
                && settings.rollout_greed > GREED_MAX),
            r matches Ok(t) ==> {
                &&& t.wf()
                &&& t.settings == settings
                &&& t.arena.nodes@.len() == 1
                &&& t.root().pos == position
                &&& t.root().visits == 0
                &&& t.rng.state == spec_seeded(settings.seed)
            },
    {
        if settings.arena_capacity == 0 {
            return Err(ConfigError::ZeroCapacity);
        }
        if settings.arena_capacity > CAP_MAX {
            return Err(ConfigError::CapacityTooLarge);
        }
        if settings.exploration > EXPLORATION_MAX {
            return Err(ConfigError::ExplorationTooLarge);
        }
        if let Some(w) = settings.noise_weight {
            if w > UNIT {
                return Err(ConfigError::NoiseTooLarge);
            }
        }
        if settings.rollout_greed > GREED_MAX {
            return Err(ConfigError::GreedTooLarge);
        }
        let root: Node<P> = Node {
            pos: position,
            visits: 0,
            value_sum: 0,
            terminal: None,
            edges: None,
        };
        let rng: SearchRng = SearchRng::new(settings.seed);
        let capacity: usize = settings.arena_capacity;
        let arena: Arena<P> = Arena::new(root, capacity);
        let tree = MonteCarloTree { arena, settings, rng };
        proof {
            assert(node_wf(tree.arena.nodes@, 0));
            assert(tree.node_edges_legal(0));
            assert(tree.node_edges_distinct(0));
        }
        Ok(tree)
    }

    /// The root's visit count: how many simulations this tree has run.
    pub fn visits(&self) -> (r: u64)
        requires
            self.wf(),
        ensures
            r == self.root().visits,
    {
        self.arena.nodes[0].visits
    }
}

/// Every edge of the root carries one of the root position's legal
/// moves.
pub proof fn lemma_root_edge_move_legal<P: GamePosition>(t: MonteCarloTree<P>, b: int)
    requires
        t.wf(),
        t.root().edges is Some,
        0 <= b < t.root().edges->Some_0@.len(),
    ensures
        move_ids(t.root().pos.spec_moves()).contains(t.root().edges->Some_0@[b].mv),
{
    assert(t.node_edges_legal(0));
    let ms = t.root().pos.spec_moves();
    let kept = crate::expand::allowed_moves(ms, t.settings.exclude_moves@);
    let es = t.root().edges->Some_0@;
    assert(edge_mvs(es)[b] == es[b].mv);
    if move_ids(kept).len() == 0 {
        assert(move_ids(ms)[b] == es[b].mv);
        assert(move_ids(ms).contains(es[b].mv));
    } else {
        assert(move_ids(kept)[b] == es[b].mv);
        assert(kept[b].0 == es[b].mv);
        crate::expand::lemma_allowed_moves_elems(ms, t.settings.exclude_moves@);
        let w = choose|w: int| 0 <= w < ms.len() && ms[w] == kept[b];
        assert(move_ids(ms)[w] == ms[w].0);
        assert(move_ids(ms).contains(es[b].mv));
    }
}

} // verus!
