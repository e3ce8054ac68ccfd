//! Plain data that crosses the engine's boundary: request envelopes, game
//! outcomes, and the arithmetic the transport layers need - time budgets
//! for a move and the score of an already finished game.

use vstd::prelude::*;
use vstd::arithmetic::div_mod::lemma_div_is_ordered;
use crate::fixed::UNIT;
use crate::oracle::{GamePosition, move_ids};

verus! {

/// A request body as the serverless gateway wraps it.
#[derive(Debug, Clone)]
pub struct AwsWrappedEvent {
    /// Base64-encoded JSON of the request body.
    pub body: String,
}

/// The outcome of a finished game.
#[derive(Clone, Copy, Debug, PartialEq, Eq, Structural)]
pub enum GameResult {
    /// The first player won.
    WhiteWin,
    /// The second player won.
    BlackWin,
    /// Nobody did.
    Draw,
}

/// How often an outcome occurs in a list of game results (`None` counts
/// as aborted).
pub open spec fn count_outcome(rs: Seq<Option<GameResult>>, o: Option<GameResult>) -> int
    decreases rs.len(),
{
    if rs.len() == 0 {
        0
    } else {
        count_outcome(rs.drop_last(), o) + (if rs.last() == o {
            1int
        } else {
            0int
        })
    }
}

/// Outcome counts over a batch of games.
#[derive(Clone, Copy, Debug, PartialEq, Eq, Structural, Default)]
pub struct GameStats {
    /// Games the first player won.
    pub white_wins: u64,
    /// Drawn games.
    pub draws: u64,
    /// Games the second player won.
    pub black_wins: u64,
    /// Games without a result.
    pub aborted: u64,
}

impl GameStats {
    /// Tallies a list of game results.
    pub fn from_games(results: &Vec<Option<GameResult>>) -> (r: GameStats)
        ensures
            r.white_wins == count_outcome(results@, Some(GameResult::WhiteWin)),
            r.black_wins == count_outcome(results@, Some(GameResult::BlackWin)),
            r.draws == count_outcome(results@, Some(GameResult::Draw)),
            r.aborted == count_outcome(results@, None::<GameResult>),
    {
        let mut stats = GameStats { white_wins: 0, draws: 0, black_wins: 0, aborted: 0 };
        let mut i: usize = 0;
        while i < results.len()
            invariant
                0 <= i <= results@.len(),
                stats.white_wins == count_outcome(results@.take(i as int), Some(
                    GameResult::WhiteWin,
                )),
                stats.black_wins == count_outcome(results@.take(i as int), Some(
                    GameResult::BlackWin,
                )),
                stats.draws == count_outcome(results@.take(i as int), Some(GameResult::Draw)),
                stats.aborted == count_outcome(results@.take(i as int), None::<GameResult>),
                stats.white_wins <= i && stats.black_wins <= i && stats.draws <= i
                    && stats.aborted <= i,
            decreases results@.len() - i,
        {
            proof {
                assert(results@.take(i + 1).drop_last() =~= results@.take(i as int));
                assert(results@.take(i + 1).last() == results@[i as int]);
            }
            match results[i] {
                Some(GameResult::WhiteWin) => {
                    stats.white_wins = stats.white_wins + 1;
                },
                Some(GameResult::BlackWin) => {
                    stats.black_wins = stats.black_wins + 1;
                },
                Some(GameResult::Draw) => {
                    stats.draws = stats.draws + 1;
                },
                None => {
                    stats.aborted = stats.aborted + 1;
                },
            }
            i = i + 1;
        }
        proof {
            assert(results@.take(results@.len() as int) =~= results@);
        }
        stats
    }
}

/// The score an already finished game reports without searching: the
/// complement of the terminal outcome, because the score is stated for
/// the player who made the last move.
pub fn finished_game_score(outcome: u64) -> (r: u64)
    requires
        outcome <= UNIT,
    ensures
        r == UNIT - outcome,
{
    UNIT - outcome
}

/// The wall-clock budget one move gets: a cautious fraction of the
/// remaining clock plus a share of the increment, smaller in the opening,
/// capped at forty seconds.
pub open spec fn spec_move_time_budget(left_ms: u64, inc_ms: u64, half_moves: u64) -> int {
    let raw = if half_moves < 4 {
        left_ms as int / 80 + inc_ms as int / 6
    } else {
        left_ms as int / 40 + inc_ms as int / 3
    };
    if raw > 40_000 {
        40_000
    } else {
        raw
    }
}

/// Computes the move's time budget, in milliseconds.
pub fn move_time_budget_ms(left_ms: u64, inc_ms: u64, half_moves: u64) -> (r: u64)
    ensures
        r == spec_move_time_budget(left_ms, inc_ms, half_moves),
        r <= 40_000,
{
    proof {
        lemma_div_is_ordered(left_ms as int, u64::MAX as int, 40);
        lemma_div_is_ordered(inc_ms as int, u64::MAX as int, 3);
        lemma_div_is_ordered(left_ms as int, u64::MAX as int, 80);
        lemma_div_is_ordered(inc_ms as int, u64::MAX as int, 6);
    }
    let raw: u64 = if half_moves < 4 {
        left_ms / 80 + inc_ms / 6
    } else {
        left_ms / 40 + inc_ms / 3
    };
    if raw > 40_000 {
        40_000
    } else {
        raw
    }
}

/// One recorded game: its starting position, the moves played, and the
/// result (if it had one).
pub struct GameRecord<P> {
    /// The position the game began from.
    pub start: P,
    /// The moves, in play order.
    pub moves: Vec<u64>,
    /// The outcome, or `None` for an aborted game.
    pub result: Option<GameResult>,
}

/// The position after the first `k` moves of a game.
pub open spec fn replay<P: GamePosition>(start: P, moves: Seq<u64>, k: int) -> P
    decreases k,
{
    if k <= 0 {
        start
    } else {
        replay(start, moves, k - 1).spec_apply(moves[k - 1])
    }
}

/// The first `k` moves of the list are each legal - listed by the
/// oracle - at the position they are played from.
pub open spec fn legal_prefix<P: GamePosition>(start: P, moves: Seq<u64>, k: int) -> bool {
    forall|t: int|
        0 <= t < k ==> move_ids(replay(start, moves, t).spec_moves()).contains(
            #[trigger] moves[t],
        )
}

/// Replays a move list from `start`, checking every move against the
/// oracle's legal moves: the final position, or the index of the first
/// move the oracle does not list.
pub fn replay_moves<P: GamePosition>(start: P, moves: &Vec<u64>) -> (r: Result<P, usize>)
    ensures
        r is Ok <==> legal_prefix(start, moves@, moves@.len() as int),
        r matches Ok(p) ==> p == replay(start, moves@, moves@.len() as int),
        r matches Err(k) ==> {
            &&& (k as int) < moves@.len()
            &&& legal_prefix(start, moves@, k as int)
            &&& !move_ids(replay(start, moves@, k as int).spec_moves()).contains(
                moves@[k as int],
            )
        },
{
    let mut pos: P = start;
    let mut k: usize = 0;
    while k < moves.len()
        invariant
            0 <= k <= moves@.len(),
            pos == replay(start, moves@, k as int),
            legal_prefix(start, moves@, k as int),
        decreases moves@.len() - k,
    {
        let mv: u64 = moves[k];
        let ms: Vec<(u64, u64)> = pos.moves_with_priors();
        let mut found: bool = false;
        let mut t: usize = 0;
        while t < ms.len()
            invariant
                0 <= t <= ms@.len(),
                ms@ == pos.spec_moves(),
                found == exists|x: int| 0 <= x < t && (#[trigger] ms@[x]).0 == mv,
            decreases ms@.len() - t,
        {
            if ms[t].0 == mv {
                found = true;
            }
            t = t + 1;
        }
        proof {
            assert(found == move_ids(pos.spec_moves()).contains(mv)) by {
                if found {
                    let x = choose|x: int| 0 <= x < ms@.len() && (#[trigger] ms@[x]).0 == mv;
                    assert(move_ids(pos.spec_moves())[x] == mv);
                    assert(move_ids(pos.spec_moves()).contains(mv));
                } else if move_ids(pos.spec_moves()).contains(mv) {
                    let x = choose|x: int|
                        0 <= x < move_ids(pos.spec_moves()).len() && move_ids(
                            pos.spec_moves(),
                        )[x] == mv;
                    assert(ms@[x].0 == mv);
                }
            }
        }
        if !found {
            proof {
                assert(!legal_prefix(start, moves@, moves@.len() as int)) by {
                    assert(!move_ids(replay(start, moves@, k as int).spec_moves()).contains(
                        moves@[k as int],
                    ));
                }
            }
            return Err(k);
        }
        let next: P = pos.apply_move(mv);
        proof {
            assert forall|t2: int|
                0 <= t2 < k + 1 implies move_ids(
                replay(start, moves@, t2).spec_moves(),
            ).contains(#[trigger] moves@[t2]) by {}
        }
        pos = next;
        k = k + 1;
    }
    Ok(pos)
}

/// The positions a game visits, one per move played (the final position
/// deliberately left out) - each paired with the game's result, aborted
/// games counting as draws.
pub open spec fn game_positions<P: GamePosition>(g: GameRecord<P>) -> Seq<P> {
    Seq::new(g.moves@.len(), |k: int| replay(g.start, g.moves@, k))
}

/// The result a game's positions are labelled with.
pub open spec fn game_label<P: GamePosition>(g: GameRecord<P>) -> GameResult {
    match g.result {
        Some(res) => res,
        None => GameResult::Draw,
    }
}

/// Training pair number `flat_len(gs, i) + k` is game `i`'s position
/// after `k` moves, labelled with game `i`'s result.
pub open spec fn pair_at<P: GamePosition>(
    ps: Seq<P>,
    ls: Seq<GameResult>,
    gs: Seq<GameRecord<P>>,
    i: int,
    k: int,
) -> bool {
    &&& ps[flat_len(gs, i) + k] == replay(gs[i].start, gs[i].moves@, k)
    &&& ls[flat_len(gs, i) + k] == game_label(gs[i])
}

/// Turns a batch of recorded games into training pairs: every visited
/// position (final positions left out) matched with its game's result,
/// aborted games labelled as draws.
pub fn positions_and_results_from_games<P: GamePosition>(games: Vec<GameRecord<P>>) -> (r: (
    Vec<P>,
    Vec<GameResult>,
))
    ensures
        r.0@.len() == r.1@.len(),
        r.0@.len() == flat_len(games@, games@.len() as int),
        forall|i: int, k: int|
            0 <= i < games@.len() && 0 <= k < games@[i].moves@.len() ==> #[trigger] pair_at(
                r.0@,
                r.1@,
                games@,
                i,
                k,
            ),
{
    let ghost gs = games@;
    let n0: usize = games.len();
    let mut games = games;
    let mut positions: Vec<P> = Vec::new();
    let mut labels: Vec<GameResult> = Vec::new();
    let mut gi: usize = 0;
    while games.len() > 0
        invariant
            gs.len() == n0,
            gi + games@.len() == gs.len(),
            games@ =~= gs.subrange(gi as int, gs.len() as int),
            positions@.len() == labels@.len(),
            positions@.len() == flat_len(gs, gi as int),
            forall|i: int, k: int|
                0 <= i < gi && 0 <= k < gs[i].moves@.len() ==> #[trigger] pair_at(
                    positions@,
                    labels@,
                    gs,
                    i,
                    k,
                ),
        decreases games@.len(),
    {
        let g: GameRecord<P> = games.remove(0);
        proof {
            assert(g == gs[gi as int]);
            assert(games@ =~= gs.subrange(gi + 1, gs.len() as int));
            lemma_flat_len_nonneg(gs, gi as int);
        }
        let label: GameResult = match g.result {
            Some(res) => res,
            None => GameResult::Draw,
        };
        let mut board: P = g.start;
        let mut k: usize = 0;
        while k < g.moves.len()
            invariant
                g == gs[gi as int],
                gi < gs.len(),
                flat_len(gs, gi as int) >= 0,
                0 <= k <= g.moves@.len(),
                board == replay(g.start, g.moves@, k as int),
                label == game_label(gs[gi as int]),
                positions@.len() == labels@.len(),
                positions@.len() == flat_len(gs, gi as int) + k,
                forall|i: int, k2: int|
                    0 <= i < gi && 0 <= k2 < gs[i].moves@.len() ==> #[trigger] pair_at(
                        positions@,
                        labels@,
                        gs,
                        i,
                        k2,
                    ),
                forall|k2: int|
                    0 <= k2 < k ==> #[trigger] pair_at(positions@, labels@, gs, gi as int, k2),
            decreases g.moves@.len() - k,
        {
            let ghost pre_ps = positions@;
            let ghost pre_ls = labels@;
            let mv: u64 = g.moves[k];
            let next: P = board.apply_move(mv);
            positions.push(board);
            labels.push(label);
            proof {
                assert forall|i: int, k2: int|
                    0 <= i < gi && 0 <= k2 < gs[i].moves@.len() implies #[trigger] pair_at(
                    positions@, labels@, gs, i, k2) by {
                    assert(pair_at(pre_ps, pre_ls, gs, i, k2));
                    lemma_flat_len_mono(gs, i + 1, gi as int);
                    lemma_flat_len_nonneg(gs, i);
                }
                assert forall|k2: int| 0 <= k2 < k + 1 implies #[trigger] pair_at(positions@,
                    labels@, gs, gi as int, k2) by {
                    if k2 < k {
                        assert(pair_at(pre_ps, pre_ls, gs, gi as int, k2));
                    } else {
                        assert(positions@[flat_len(gs, gi as int) + k2] == board);
                        assert(labels@[flat_len(gs, gi as int) + k2] == label);
                    }
                }
            }
            board = next;
            k = k + 1;
        }
        proof {
            assert(gi < gs.len());
        }
        gi = gi + 1;
        proof {
            assert(flat_len(gs, gi as int) == flat_len(gs, gi - 1) + gs[gi - 1].moves@.len());
        }
    }
    proof {
        assert(gi == gs.len());
    }
    (positions, labels)
}

/// Prefix lengths of the flattening are never negative.
pub proof fn lemma_flat_len_nonneg<P: GamePosition>(gs: Seq<GameRecord<P>>, i: int)
    ensures
        flat_len(gs, i) >= 0,
    decreases i,
{
    if i > 0 {
        lemma_flat_len_nonneg(gs, i - 1);
    }
}

/// Earlier flattening prefixes are no longer than later ones.
pub proof fn lemma_flat_len_mono<P: GamePosition>(gs: Seq<GameRecord<P>>, i: int, j: int)
    requires
        i <= j,
    ensures
        flat_len(gs, i) <= flat_len(gs, j),
    decreases j - i,
{
    if i < j {
        lemma_flat_len_mono(gs, i, j - 1);
    }
}

/// How many training pairs the first `i` games contribute.
pub open spec fn flat_len<P: GamePosition>(gs: Seq<GameRecord<P>>, i: int) -> int
    decreases i,
{
    if i <= 0 {
        0
    } else {
        flat_len(gs, i - 1) + gs[i - 1].moves@.len()
    }
}

} // verus!
