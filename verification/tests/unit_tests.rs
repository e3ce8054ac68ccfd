//! Unit tests of the arithmetic helpers, the TPS size parser and the
//! boundary data types.

use taik::events::{
    finished_game_score, move_time_budget_ms, positions_and_results_from_games, replay_moves,
    GameRecord, GameResult, GameStats,
};
use taik::expand::renormalize;
use taik::fixed::{isqrt, sqrt_scaled, HALF, UNIT};
use taik::games::LadderPosition;
use taik::parameters::{num_policy_features, num_value_features};
use taik::web::{determine_tps_size, OpeningResult, PtnMoveResult};

#[test]
fn integer_square_roots() {
    assert_eq!(isqrt(0), 0);
    assert_eq!(isqrt(1), 1);
    assert_eq!(isqrt(15), 3);
    assert_eq!(isqrt(16), 4);
    assert_eq!(isqrt(24), 4);
    assert_eq!(isqrt(u64::MAX), 0xFFFF_FFFF);
    // sqrt in fixed point: sqrt(4) is 2.0.
    assert_eq!(sqrt_scaled(4), 2 * UNIT);
    assert_eq!(sqrt_scaled(0), 0);
}

#[test]
fn renormalize_restores_the_unit_sum() {
    let shares = renormalize(&vec![(10, 100), (11, 300)]);
    let total: u64 = shares.iter().map(|m| m.1).sum();
    assert_eq!(total, UNIT);
    assert_eq!(shares[0].0, 10);
    assert_eq!(shares[1].0, 11);
    // Proportions kept: move 11 gets three quarters.
    assert_eq!(shares[1].1, 3 * UNIT / 4);

    // All-zero priors fall back to a uniform split.
    let uniform = renormalize(&vec![(1, 0), (2, 0), (3, 0), (4, 0)]);
    let total: u64 = uniform.iter().map(|m| m.1).sum();
    assert_eq!(total, UNIT);
    assert_eq!(uniform[0].1, UNIT / 4);
}

#[test]
fn tps_size_of_standard_boards() {
    assert_eq!(determine_tps_size("x5/x5/x5/x5/x5"), 5);
    assert_eq!(determine_tps_size("x6/x6/x6/x6/x6/x6"), 6);
    assert_eq!(determine_tps_size("x4/x4/x4/x4"), 4);
}

#[test]
fn tps_size_of_busy_rows() {
    // Occupied columns count one each; xN merges N empty columns.
    assert_eq!(determine_tps_size("x2,12,2S,x2/x6"), 6);
    assert_eq!(determine_tps_size("1,2,1/x3"), 3);
    assert_eq!(determine_tps_size("x10,x2/whatever"), 12);
    // A bare x without a number counts as one column.
    assert_eq!(determine_tps_size("x/x"), 1);
    assert_eq!(determine_tps_size("x,x,1/x3"), 3);
}

#[test]
fn feature_counts_per_board_size() {
    assert_eq!(num_value_features::<4>(), 87);
    assert_eq!(num_policy_features::<4>(), 138);
    assert_eq!(num_value_features::<5>(), 124);
    assert_eq!(num_policy_features::<5>(), 157);
    assert_eq!(num_value_features::<6>(), 134);
    assert_eq!(num_policy_features::<6>(), 167);
}

#[test]
fn move_time_budgets() {
    // Opening: one eightieth of the clock plus a sixth of the increment.
    assert_eq!(move_time_budget_ms(120_000, 6_000, 0), 2_500);
    // Later: one fortieth plus a third.
    assert_eq!(move_time_budget_ms(120_000, 6_000, 10), 5_000);
    // Never more than forty seconds.
    assert_eq!(move_time_budget_ms(u64::MAX, u64::MAX, 10), 40_000);
}

#[test]
fn finished_game_scores() {
    // The side to move has won: the player who just moved scores zero.
    assert_eq!(finished_game_score(UNIT), 0);
    assert_eq!(finished_game_score(0), UNIT);
    assert_eq!(finished_game_score(HALF), HALF);
}

#[test]
fn game_stats_tally() {
    let results = vec![
        Some(GameResult::WhiteWin),
        Some(GameResult::BlackWin),
        Some(GameResult::WhiteWin),
        Some(GameResult::Draw),
        None,
    ];
    let stats = GameStats::from_games(&results);
    assert_eq!(stats.white_wins, 2);
    assert_eq!(stats.black_wins, 1);
    assert_eq!(stats.draws, 1);
    assert_eq!(stats.aborted, 1);
}

#[test]
fn training_pairs_from_games() {
    let games = vec![
        GameRecord {
            start: LadderPosition::start(),
            moves: vec![0, 0],
            result: Some(GameResult::WhiteWin),
        },
        GameRecord { start: LadderPosition::start(), moves: vec![1], result: None },
    ];
    let (positions, labels) = positions_and_results_from_games(games);
    assert_eq!(positions.len(), 3);
    assert_eq!(labels.len(), 3);
    assert_eq!(positions[0], LadderPosition::start());
    assert_eq!(positions[1], LadderPosition { depth: 1, line: 1 });
    assert_eq!(positions[2], LadderPosition::start());
    assert_eq!(labels[0], GameResult::WhiteWin);
    assert_eq!(labels[1], GameResult::WhiteWin);
    // Aborted games are labelled as draws.
    assert_eq!(labels[2], GameResult::Draw);
}

#[test]
fn percent_report_lines() {
    let line = PtnMoveResult::from_probability(String::from("c3"), 58982);
    assert_eq!(line.white, 89);
    assert_eq!(line.black, 10);
    let other = PtnMoveResult::from_probability(String::from("d4"), HALF);
    assert_eq!(other.white, 50);
    assert_eq!(other.black, 50);
    let report = OpeningResult::from_moves(vec![line, other]);
    assert_eq!(report.white, 139);
    assert_eq!(report.black, 60);
    assert_eq!(report.moves.len(), 2);
}

#[test]
fn checked_replay_accepts_legal_lines_and_flags_the_first_bad_move() {
    // The ladder's root offers moves 0 and 1; afterwards only move 0.
    let end = replay_moves(LadderPosition::start(), &vec![1, 0, 0]).unwrap();
    assert_eq!(end, LadderPosition { depth: 3, line: 2 });

    // Move 1 is not legal after the first ply.
    assert_eq!(replay_moves(LadderPosition::start(), &vec![0, 1, 0]), Err(1));
    // An unknown move is flagged immediately.
    assert_eq!(replay_moves(LadderPosition::start(), &vec![7]), Err(0));
    // The empty line replays to the start.
    assert_eq!(replay_moves(LadderPosition::start(), &vec![]).unwrap(), LadderPosition::start());
}
