//! The engine must find forced wins of increasing depth: positions where
//! only one first move keeps the winning threat alive, the static
//! evaluation undervalues the winning track, and every defender reply
//! loses.

use taik::games::TacticsPosition;
use taik::mcts;
use taik::fixed::HALF;
use taik::oracle::GamePosition;

fn plays_the_winning_move(plies: u64, nodes: u64) {
    let position = TacticsPosition::start(plies);

    // The winning move must be among the legal moves before we demand it.
    let moves = position.moves_with_priors();
    assert!(moves.iter().any(|&(mv, _)| mv == 0), "winning move missing from move list");

    let (best_move, score) = mcts(position, nodes);
    assert_eq!(best_move, 0, "did not play the forced win at {} plies", plies);
    assert!(score > HALF, "a forced win should score above one half, got {}", score);
}

#[test]
fn tinue_3ply_test() {
    plays_the_winning_move(3, 50_000);
}

#[test]
fn tinue_5ply_test() {
    plays_the_winning_move(5, 50_000);
}

#[test]
fn tinue_7ply_test() {
    plays_the_winning_move(7, 50_000);
}
