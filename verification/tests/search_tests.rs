//! Scenario tests of the search tree: prior-driven convergence, arena
//! exhaustion, exclusion, determinism, noise and rollouts.

use taik::fixed::{HALF, UNIT};
use taik::games::{LadderPosition, TacticsPosition};
use taik::search::{run_search, Action, NoopSink, ProgressSink, SearchOutcome, TimeControl};
use taik::settings::{ConfigError, MctsSetting};
use taik::tree::MonteCarloTree;

#[test]
fn ladder_prefers_the_strong_move() {
    // Move 0 wins with probability 0.9, move 1 with 0.1, equal priors;
    // after 1000 simulations move 0 must dominate the visit counts.
    let settings = MctsSetting::default().arena_size(4096);
    let mut tree = MonteCarloTree::with_settings(LadderPosition::start(), settings).unwrap();
    let ran = tree.run_for_nodes(1000);
    assert_eq!(ran, 1000);
    assert_eq!(tree.visits(), 1000);

    let (best_move, opponent_value) = tree.best_move();
    assert_eq!(best_move, 0);
    // The value stored behind the best edge belongs to the opponent and
    // must be low.
    assert!(opponent_value < HALF);

    let infos = tree.best_children_info(2);
    assert_eq!(infos.len(), 2);
    assert_eq!(infos[0].mv, 0);
    assert!(infos[0].visits > 900, "winning move got only {} visits", infos[0].visits);
    assert!(infos[0].visit_share > UNIT * 9 / 10);
    assert!(infos[0].visits >= infos[1].visits);

    let pv = tree.pv();
    assert!(pv.len() >= 1);
    assert_eq!(pv[0], 0);
}

#[test]
fn arena_exhaustion_is_a_signal_not_a_crash() {
    // An arena of exactly 5 nodes: five simulations succeed, the sixth
    // reports exhaustion, and every query still answers.
    let settings = MctsSetting::default().arena_size(5);
    let mut tree = MonteCarloTree::with_settings(LadderPosition::start(), settings).unwrap();
    for _ in 0..5 {
        assert!(tree.select().is_some());
    }
    assert!(tree.select().is_none(), "the sixth simulation must hit the capacity");
    assert!(tree.select().is_none(), "exhaustion is permanent");
    assert_eq!(tree.visits(), 5);

    let (best_move, _) = tree.best_move();
    assert!(best_move == 0 || best_move == 1);
    assert!(tree.pv().len() >= 1);
    assert!(tree.best_children_info(10).len() == 2);
    // 5 nodes, root with 2 edges and four chain nodes with 1 edge each.
    assert_eq!(tree.mem_usage(), 5 * 64 + 6 * 24);
}

#[test]
fn visits_add_up() {
    let settings = MctsSetting::default().arena_size(512);
    let mut tree = MonteCarloTree::with_settings(LadderPosition::start(), settings).unwrap();
    let ran = tree.run_for_nodes(300);
    assert_eq!(ran, 300);
    // The root has been visited once more than its children together.
    let infos = tree.best_children_info(2);
    let children_visits: u64 = infos.iter().map(|i| i.visits).sum();
    assert_eq!(tree.visits(), 1 + children_visits);
}

#[test]
fn determinism_without_noise() {
    // Same position, settings and budget: identical statistics.
    let run = || {
        let settings = MctsSetting::default().arena_size(2048);
        let mut tree = MonteCarloTree::with_settings(LadderPosition::start(), settings).unwrap();
        tree.run_for_nodes(500);
        (tree.best_move(), tree.visits(), tree.best_children_info(5), tree.pv())
    };
    let a = run();
    let b = run();
    assert_eq!(a.0, b.0);
    assert_eq!(a.1, b.1);
    assert_eq!(a.2, b.2);
    assert_eq!(a.3, b.3);
}

#[test]
fn seeded_noise_and_rollouts_are_reproducible() {
    let run = |seed: u64| {
        let settings = MctsSetting::default()
            .arena_size(2048)
            .add_noise(HALF)
            .add_rollout_depth(3)
            .add_rollout_greed(2)
            .seed(seed);
        let mut tree = MonteCarloTree::with_settings(TacticsPosition::start(5), settings)
            .unwrap();
        tree.run_for_nodes(400);
        (tree.best_move(), tree.best_children_info(4))
    };
    let a = run(42);
    let b = run(42);
    assert_eq!(a, b, "the same seed must reproduce the same search");
}

#[test]
fn excluded_moves_are_never_reported() {
    // Move 0 is by far the best; excluded, it must never appear.
    let settings = MctsSetting::default().arena_size(2048).exclude_moves(vec![0]);
    let mut tree = MonteCarloTree::with_settings(LadderPosition::start(), settings).unwrap();
    tree.run_for_nodes(300);
    let (best_move, _) = tree.best_move();
    assert_eq!(best_move, 1);
    let infos = tree.best_children_info(10);
    assert!(infos.iter().all(|i| i.mv != 0));
    assert_eq!(tree.pv()[0], 1);
}

#[test]
fn excluding_every_move_is_ignored() {
    let settings = MctsSetting::default().arena_size(64).exclude_moves(vec![0, 1]);
    let mut tree = MonteCarloTree::with_settings(LadderPosition::start(), settings).unwrap();
    assert!(tree.select().is_some());
    let (best_move, _) = tree.best_move();
    assert!(best_move == 0 || best_move == 1);
}

#[test]
fn invalid_configurations_are_rejected() {
    let pos = || LadderPosition::start();
    assert_eq!(
        MonteCarloTree::with_settings(pos(), MctsSetting::default().arena_size(0)).err(),
        Some(ConfigError::ZeroCapacity)
    );
    assert_eq!(
        MonteCarloTree::with_settings(pos(), MctsSetting::default().arena_size(usize::MAX))
            .err(),
        Some(ConfigError::CapacityTooLarge)
    );
    assert_eq!(
        MonteCarloTree::with_settings(pos(), MctsSetting::default().exploration(1 << 30)).err(),
        Some(ConfigError::ExplorationTooLarge)
    );
    assert_eq!(
        MonteCarloTree::with_settings(pos(), MctsSetting::default().add_noise(UNIT + 1)).err(),
        Some(ConfigError::NoiseTooLarge)
    );
    assert_eq!(
        MonteCarloTree::with_settings(pos(), MctsSetting::default().add_rollout_greed(7)).err(),
        Some(ConfigError::GreedTooLarge)
    );
    assert!(MonteCarloTree::with_settings(pos(), MctsSetting::default()).is_ok());
}

struct CountingSink {
    reports: u64,
    last_visits: u64,
}

impl ProgressSink for CountingSink {
    fn report(&mut self, visits: u64, _nodes_used: u64) {
        self.reports += 1;
        self.last_visits = visits;
    }
}

#[test]
fn time_bounded_search_reports_progress() {
    let settings = MctsSetting::default().arena_size(1 << 16);
    let mut tree = MonteCarloTree::with_settings(LadderPosition::start(), settings).unwrap();
    let mut sink = CountingSink { reports: 0, last_visits: 0 };
    let ran = tree.search_for_time(40, &mut sink);
    assert!(ran >= 1);
    assert!(sink.reports >= 1);
    assert_eq!(tree.visits(), ran);
    // The last report saw the final visit count.
    assert_eq!(sink.last_visits, tree.visits());

    // The built-in sink that discards reports works just as well.
    let settings = MctsSetting::default().arena_size(1 << 10);
    let mut quiet = MonteCarloTree::with_settings(LadderPosition::start(), settings).unwrap();
    let mut sink = NoopSink {};
    assert!(quiet.search_for_time(5, &mut sink) >= 1);
}

#[test]
fn terminal_root_replays_its_outcome() {
    // A game that is already over: every simulation replays the cached
    // outcome, no arena node is ever allocated, and the line is empty.
    let over = TacticsPosition { plies_left: 0, hero_to_move: false, winning: true };
    let settings = MctsSetting::default().arena_size(4);
    let mut tree = MonteCarloTree::with_settings(over, settings).unwrap();
    for _ in 0..10 {
        assert!(tree.select().is_some());
    }
    assert_eq!(tree.visits(), 10);
    assert_eq!(tree.pv().len(), 0);
    // One live node (the root), which holds no edges.
    assert_eq!(tree.mem_usage(), 64);
}

#[test]
fn run_search_suggests_moves_and_lines() {
    let settings = MctsSetting::default().arena_size(2048);
    let outcome = run_search(
        LadderPosition::start(),
        settings,
        TimeControl::FixedNodes(500),
        Action::SuggestMoves,
        0,
        &mut NoopSink {},
    )
    .unwrap();
    match outcome {
        SearchOutcome::SuggestedMoves(infos) => {
            assert!(infos.len() <= 10);
            assert_eq!(infos[0].mv, 0);
        }
        other => panic!("expected a move list, got {:?}", other),
    }

    let settings = MctsSetting::default().arena_size(2048);
    let outcome = run_search(
        LadderPosition::start(),
        settings,
        TimeControl::FixedNodes(500),
        Action::SuggestMove,
        0,
        &mut NoopSink {},
    )
    .unwrap();
    match outcome {
        SearchOutcome::SuggestedMove { score, pv, nodes, mem_usage } => {
            assert!(score > HALF, "the better line should score above one half");
            assert_eq!(pv[0], 0);
            assert_eq!(nodes, 500);
            assert!(mem_usage > 0);
        }
        other => panic!("expected a single line, got {:?}", other),
    }

    // A time-bounded request also answers.
    let settings = MctsSetting::default().arena_size(1 << 14);
    let outcome = run_search(
        LadderPosition::start(),
        settings,
        TimeControl::Time(800, 0),
        Action::SuggestMove,
        10,
        &mut NoopSink {},
    )
    .unwrap();
    match outcome {
        SearchOutcome::SuggestedMove { nodes, .. } => assert!(nodes >= 1),
        other => panic!("expected a single line, got {:?}", other),
    }

    // A bad configuration is rejected before any search.
    assert!(run_search(
        LadderPosition::start(),
        MctsSetting::default().arena_size(0),
        TimeControl::FixedNodes(1),
        Action::SuggestMove,
        0,
        &mut NoopSink {},
    )
    .is_err());
}

#[test]
fn run_search_scores_a_finished_game() {
    // The side to move has already won: the mover before them scores zero.
    let over = TacticsPosition { plies_left: 0, hero_to_move: false, winning: true };
    let outcome = run_search(
        over,
        MctsSetting::default().arena_size(16),
        TimeControl::FixedNodes(100),
        Action::SuggestMove,
        0,
        &mut NoopSink {},
    )
    .unwrap();
    match outcome {
        SearchOutcome::SuggestedMove { score, pv, nodes, mem_usage } => {
            assert_eq!(score, UNIT);
            assert!(pv.is_empty());
            assert_eq!(nodes, 0);
            assert_eq!(mem_usage, 0);
        }
        other => panic!("expected a scored line, got {:?}", other),
    }
}
